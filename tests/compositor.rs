use hutch::clients::{ClientRegistry, Disconnect, DisconnectReason};
use hutch::compositor::{next_step, Compositor, DrawCommand, LoopStep, Outgoing, Rectangle};
use hutch::seat::{key_filter, FilterResult, InputEvent, KeyDelivery, KeyState, Seat};
use hutch::shell::{Shell, ToplevelState};
use hutch::surface_tree::{Buffer, BufferAssignment, FrameDone, SurfaceTree, Transform};

fn buf(id: u64) -> Buffer {
    Buffer { id, width: 64, height: 48 }
}

#[test]
fn pending_changes_stay_invisible_until_commit() {
    let mut t = SurfaceTree::new();
    let s = t.create_surface(None);
    t.attach(s, BufferAssignment::Attached(buf(1)));
    t.set_scale(s, 2);
    t.set_transform(s, Transform::Rotated90);
    assert_eq!(t.current_buffer(s), None);
    assert_eq!(t.current_scale(s), 1);
    assert_eq!(t.current_transform(s), Transform::Normal);
    assert_eq!(t.commit(s), None);
    assert_eq!(t.current_buffer(s), Some(buf(1)));
    assert_eq!(t.current_scale(s), 2);
    assert_eq!(t.current_transform(s), Transform::Rotated90);
}

#[test]
fn commit_keeps_buffer_when_nothing_attached() {
    let mut t = SurfaceTree::new();
    let s = t.create_surface(None);
    t.attach(s, BufferAssignment::Attached(buf(1)));
    t.commit(s);
    t.set_scale(s, 3);
    assert_eq!(t.commit(s), None);
    assert_eq!(t.current_buffer(s), Some(buf(1)));
    assert_eq!(t.current_scale(s), 3);
}

#[test]
fn commit_releases_replaced_buffer() {
    let mut t = SurfaceTree::new();
    let s = t.create_surface(None);
    t.attach(s, BufferAssignment::Attached(buf(1)));
    assert_eq!(t.commit(s), None);
    t.attach(s, BufferAssignment::Attached(buf(2)));
    assert_eq!(t.commit(s), Some(buf(1)));
    t.attach(s, BufferAssignment::Attached(buf(2)));
    assert_eq!(t.commit(s), None);
    t.attach(s, BufferAssignment::Removed);
    assert_eq!(t.commit(s), Some(buf(2)));
    assert_eq!(t.current_buffer(s), None);
}

#[test]
fn frame_callbacks_queue_on_commit() {
    let mut t = SurfaceTree::new();
    let s = t.create_surface(None);
    t.request_frame(s, 7);
    assert_eq!(t.queued_callbacks(s), 0);
    t.commit(s);
    assert_eq!(t.queued_callbacks(s), 1);
    t.request_frame(s, 8);
    t.commit(s);
    assert_eq!(t.queued_callbacks(s), 2);
}

#[test]
fn frame_pass_fires_each_callback_once_with_one_time() {
    let mut t = SurfaceTree::new();
    let a = t.create_surface(None);
    let b = t.create_surface(Some(a));
    t.request_frame(a, 10);
    t.request_frame(a, 11);
    t.request_frame(b, 12);
    t.commit(a);
    t.commit(b);
    let order = t.traverse_downward(a);
    let dones = t.drain_frame_callbacks(&order, 500);
    assert_eq!(
        dones,
        vec![
            FrameDone { surface: a, callback: 10, time: 500 },
            FrameDone { surface: a, callback: 11, time: 500 },
            FrameDone { surface: b, callback: 12, time: 500 },
        ]
    );
    assert_eq!(t.queued_callbacks(a), 0);
    assert_eq!(t.queued_callbacks(b), 0);
    let again = t.drain_frame_callbacks(&order, 501);
    assert!(again.is_empty());
}

#[test]
fn traversal_visits_each_once_parent_first() {
    let mut t = SurfaceTree::new();
    let r0 = t.create_surface(None);
    let c1 = t.create_surface(Some(r0));
    let r2 = t.create_surface(None);
    let c3 = t.create_surface(Some(c1));
    let c4 = t.create_surface(Some(r2));
    let c5 = t.create_surface(Some(r0));
    assert_eq!(t.traverse_downward(r0), vec![r0, c1, c3, c5]);
    assert_eq!(t.traverse_downward(r2), vec![r2, c4]);
    assert_eq!(t.traverse_downward(c1), vec![c1, c3]);
    let all = t.traverse_all();
    assert_eq!(all.len(), 6);
    for id in 0..6usize {
        assert_eq!(all.iter().filter(|&&x| x == id).count(), 1);
        if let Some(p) = t.parent_of(id) {
            let pi = all.iter().position(|&x| x == p).unwrap();
            let ci = all.iter().position(|&x| x == id).unwrap();
            assert!(pi < ci);
        }
    }
    assert_eq!(t.roots(), vec![r0, r2]);
    assert_eq!(t.traverse_roots(&vec![r2, r0]), vec![r2, c4, r0, c1, c3, c5]);
}

#[test]
fn new_toplevel_sends_one_configure() {
    let mut c = Compositor::new();
    let s = c.create_surface(None).unwrap();
    assert!(c.new_toplevel(s));
    let t = c.shell().get(0);
    assert_eq!(t.state, ToplevelState::ConfigurePending);
    assert!(t.activated);
    assert_eq!(t.configures_sent, 1);
    assert_eq!(c.flush(), vec![Outgoing::Configure { surface: s }]);
    c.commit(s);
    assert!(c.flush().is_empty());
    let t = c.shell().get(0);
    assert_eq!(t.state, ToplevelState::Activated);
    assert_eq!(t.configures_sent, 1);
    c.commit(s);
    assert_eq!(c.shell().get(0).configures_sent, 1);
}

#[test]
fn new_toplevel_refuses_sub_surfaces_and_repeats() {
    let mut c = Compositor::new();
    let s = c.create_surface(None).unwrap();
    let child = c.create_surface(Some(s)).unwrap();
    assert!(!c.new_toplevel(child));
    assert!(!c.new_toplevel(9));
    assert!(c.new_toplevel(s));
    assert!(!c.new_toplevel(s));
    assert_eq!(c.shell().len(), 1);
    assert_eq!(c.flush().len(), 1);
}

#[test]
fn create_surface_checks_parent() {
    let mut c = Compositor::new();
    assert_eq!(c.create_surface(Some(0)), None);
    assert_eq!(c.create_surface(None), Some(0));
    assert_eq!(c.create_surface(Some(0)), Some(1));
    assert_eq!(c.surface_count(), 2);
}

#[test]
fn pointer_motion_focuses_first_toplevel() {
    let mut c = Compositor::new();
    assert_eq!(c.handle_input(InputEvent::PointerMotionAbsolute), None);
    assert_eq!(c.keyboard_focus(), None);
    let a = c.create_surface(None).unwrap();
    let b = c.create_surface(None).unwrap();
    assert!(c.new_toplevel(a));
    assert!(c.new_toplevel(b));
    for _ in 0..3 {
        assert_eq!(c.handle_input(InputEvent::PointerMotionAbsolute), None);
        assert_eq!(c.keyboard_focus(), Some(a));
    }
}

#[test]
fn keys_are_forwarded_with_fresh_serials() {
    let mut c = Compositor::new();
    let a = c.create_surface(None).unwrap();
    c.new_toplevel(a);
    let k = InputEvent::Keyboard { key_code: 30, state: KeyState::Pressed };
    assert_eq!(
        c.handle_input(k),
        Some(KeyDelivery { key_code: 30, state: KeyState::Pressed, serial: 0, focus: None })
    );
    c.handle_input(InputEvent::PointerMotionAbsolute);
    assert_eq!(
        c.handle_input(InputEvent::Keyboard { key_code: 30, state: KeyState::Released }),
        Some(KeyDelivery { key_code: 30, state: KeyState::Released, serial: 1, focus: Some(a) })
    );
    assert_eq!(c.handle_input(InputEvent::Resized { width: 10, height: 10 }), None);
    assert_eq!(c.handle_input(InputEvent::Other), None);
    assert_eq!(c.keyboard_focus(), Some(a));
    assert_eq!(key_filter(30, KeyState::Pressed), FilterResult::Forward);
}

#[test]
fn key_serial_wraps() {
    let mut s = Seat { focus: None, serial: u32::MAX };
    let d = s.handle_event(InputEvent::Keyboard { key_code: 1, state: KeyState::Pressed }, None);
    assert_eq!(d.unwrap().serial, u32::MAX);
    assert_eq!(s.serial, 0);
}

#[test]
fn client_lifecycle_scenario() {
    let mut c = Compositor::new();
    let id = c.client_connected().unwrap();
    assert_eq!(c.client_registry().len(), 1);
    let s = c.create_surface(None).unwrap();
    assert!(c.new_toplevel(s));
    assert_eq!(c.flush(), vec![Outgoing::Configure { surface: s }]);
    assert_eq!(c.shell().get(0).state, ToplevelState::ConfigurePending);
    c.attach(s, BufferAssignment::Attached(buf(4)));
    c.commit(s);
    assert_eq!(c.shell().get(0).state, ToplevelState::Activated);
    let frame = c.render_frame(800, 600, 16);
    assert_eq!(frame.damage, Rectangle { x: 0, y: 0, width: 800, height: 600 });
    assert_eq!(
        frame.draws,
        vec![DrawCommand { surface: s, buffer: buf(4), scale: 1, transform: Transform::Normal }]
    );
    assert!(c.client_disconnected(id, DisconnectReason::ConnectionClosed));
    assert_eq!(c.client_registry().len(), 0);
    assert_eq!(
        c.client_registry().disconnect_log(),
        &vec![Disconnect { client: id, reason: DisconnectReason::ConnectionClosed }]
    );
}

#[test]
fn callback_timestamps_increase_across_passes() {
    let mut c = Compositor::new();
    let s = c.create_surface(None).unwrap();
    c.new_toplevel(s);
    c.flush();
    c.request_frame(s, 1);
    c.commit(s);
    c.render_frame(100, 100, 16);
    c.request_frame(s, 2);
    c.commit(s);
    c.render_frame(100, 100, 33);
    let msgs = c.flush();
    assert_eq!(
        msgs,
        vec![
            Outgoing::FrameDone(FrameDone { surface: s, callback: 1, time: 16 }),
            Outgoing::FrameDone(FrameDone { surface: s, callback: 2, time: 33 }),
        ]
    );
}

#[test]
fn render_skips_surfaces_outside_toplevels_and_without_buffers() {
    let mut c = Compositor::new();
    let loose = c.create_surface(None).unwrap();
    let top = c.create_surface(None).unwrap();
    let sub = c.create_surface(Some(top)).unwrap();
    let empty = c.create_surface(Some(top)).unwrap();
    c.new_toplevel(top);
    c.attach(loose, BufferAssignment::Attached(buf(1)));
    c.commit(loose);
    c.request_frame(loose, 5);
    c.commit(loose);
    c.attach(top, BufferAssignment::Attached(buf(2)));
    c.commit(top);
    c.attach(sub, BufferAssignment::Attached(buf(3)));
    c.set_scale(sub, 2);
    c.set_transform(sub, Transform::Flipped180);
    c.commit(sub);
    c.request_frame(empty, 6);
    c.commit(empty);
    c.flush();
    let frame = c.render_frame(10, 20, 7);
    assert_eq!(
        frame.draws,
        vec![
            DrawCommand { surface: top, buffer: buf(2), scale: 1, transform: Transform::Normal },
            DrawCommand { surface: sub, buffer: buf(3), scale: 2, transform: Transform::Flipped180 },
        ]
    );
    assert_eq!(c.flush(), vec![Outgoing::FrameDone(FrameDone { surface: empty, callback: 6, time: 7 })]);
    assert_eq!(c.surface_tree().queued_callbacks(loose), 1);
}

#[test]
fn commit_queues_buffer_release() {
    let mut c = Compositor::new();
    let s = c.create_surface(None).unwrap();
    c.attach(s, BufferAssignment::Attached(buf(1)));
    c.commit(s);
    c.attach(s, BufferAssignment::Attached(buf(2)));
    c.commit(s);
    assert_eq!(c.flush(), vec![Outgoing::BufferReleased(buf(1))]);
}

#[test]
fn registry_hands_out_fresh_ids() {
    let mut r = ClientRegistry::new();
    let a = r.insert().unwrap();
    let b = r.insert().unwrap();
    assert_ne!(a, b);
    assert!(r.is_live(a));
    assert!(r.remove(a, DisconnectReason::ProtocolError));
    assert!(!r.is_live(a));
    assert!(!r.remove(a, DisconnectReason::ProtocolError));
    let c = r.insert().unwrap();
    assert_ne!(c, a);
    assert_ne!(c, b);
    assert_eq!(r.len(), 2);
    assert_eq!(r.disconnect_log().len(), 1);
}

#[test]
fn shell_lookups() {
    let mut sh = Shell::new();
    assert_eq!(sh.first_surface(), None);
    sh.new_toplevel(4);
    sh.new_toplevel(2);
    assert_eq!(sh.first_surface(), Some(4));
    assert_eq!(sh.surfaces(), vec![4, 2]);
    assert_eq!(sh.find(2), Some(1));
    assert_eq!(sh.find(3), None);
    assert!(sh.new_toplevel(2).is_none());
    sh.on_commit(2);
    assert_eq!(sh.get(1).state, ToplevelState::Activated);
    assert_eq!(sh.get(0).state, ToplevelState::ConfigurePending);
}

#[test]
fn loop_steps_cycle_in_order() {
    let mut s = LoopStep::PollInput;
    let mut seen = vec![s];
    for _ in 0..6 {
        s = next_step(s);
        seen.push(s);
    }
    assert_eq!(
        seen,
        vec![
            LoopStep::PollInput,
            LoopStep::Render,
            LoopStep::Accept,
            LoopStep::Dispatch,
            LoopStep::Flush,
            LoopStep::Submit,
            LoopStep::PollInput,
        ]
    );
}

#[test]
fn traversal_is_depth_first() {
    let mut t = SurfaceTree::new();
    let a = t.create_surface(None);
    let b = t.create_surface(Some(a));
    let c = t.create_surface(Some(a));
    let d = t.create_surface(Some(b));
    assert_eq!(t.traverse_downward(a), vec![a, b, d, c]);
    assert_eq!(t.traverse_all(), vec![a, b, d, c]);
}
