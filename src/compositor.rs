//! The compositor context: it owns the surface arena, the toplevels, the
//! seat and the client registry, answers the protocol handlers, renders
//! frames and queues what is to be sent to clients.
use vstd::prelude::*;
use crate::clients::{ClientRegistry, Disconnect, DisconnectReason};
use crate::seat::{InputEvent, KeyDelivery, Seat, next_serial};
use crate::shell::{Shell, Toplevel, configured_toplevel, on_commit_spec, surfaces_of};
use crate::surface_tree::{
    Buffer,
    BufferAssignment,
    FrameDone,
    SurfaceTree,
    Transform,
    PendingView,
    after_commit,
    committed,
    drained,
    released,
};

verus! {

/// A message queued for a client until the next flush.
#[derive(Clone, Copy, Debug, PartialEq, Eq, Structural)]
pub enum Outgoing {
    Configure { surface: usize },
    FrameDone(FrameDone),
    BufferReleased(Buffer),
}

/// A rectangle in output pixels.
#[derive(Clone, Copy, Debug, PartialEq, Eq, Structural)]
pub struct Rectangle {
    pub x: i32,
    pub y: i32,
    pub width: u32,
    pub height: u32,
}

/// One surface to draw, with what its current state says of it.
#[derive(Clone, Copy, Debug, PartialEq, Eq, Structural)]
pub struct DrawCommand {
    pub surface: usize,
    pub buffer: Buffer,
    pub scale: i32,
    pub transform: Transform,
}

/// What a frame pass hands to the render backend.
pub struct RenderedFrame {
    pub damage: Rectangle,
    pub draws: Vec<DrawCommand>,
}

/// The steps of one loop iteration, in the order they run.
#[derive(Clone, Copy, Debug, PartialEq, Eq, Structural)]
pub enum LoopStep {
    PollInput,
    Render,
    Accept,
    Dispatch,
    Flush,
    Submit,
}

/// The step that runs after `step`; after presentation the next iteration
/// begins.
pub fn next_step(step: LoopStep) -> (r: LoopStep)
    ensures
        r == match step {
            LoopStep::PollInput => LoopStep::Render,
            LoopStep::Render => LoopStep::Accept,
            LoopStep::Accept => LoopStep::Dispatch,
            LoopStep::Dispatch => LoopStep::Flush,
            LoopStep::Flush => LoopStep::Submit,
            LoopStep::Submit => LoopStep::PollInput,
        },
{
    match step {
        LoopStep::PollInput => LoopStep::Render,
        LoopStep::Render => LoopStep::Accept,
        LoopStep::Accept => LoopStep::Dispatch,
        LoopStep::Dispatch => LoopStep::Flush,
        LoopStep::Flush => LoopStep::Submit,
        LoopStep::Submit => LoopStep::PollInput,
    }
}

/// The damage of a frame: the whole output.
pub open spec fn full_damage(width: u32, height: u32) -> Rectangle {
    Rectangle { x: 0, y: 0, width, height }
}

/// The draw commands for the surfaces of `order` that hold a buffer.
pub open spec fn draws_of(tree: SurfaceTree, order: Seq<usize>) -> Seq<DrawCommand>
    decreases order.len(),
{
    if order.len() == 0 {
        Seq::empty()
    } else {
        let id = order.last();
        let cur = tree.current(id as int);
        let rest = draws_of(tree, order.drop_last());
        match cur.buffer {
            Some(b) => rest.push(
                DrawCommand { surface: id, buffer: b, scale: cur.scale, transform: cur.transform },
            ),
            None => rest,
        }
    }
}

pub open spec fn done_messages(dones: Seq<FrameDone>) -> Seq<Outgoing> {
    dones.map_values(|d: FrameDone| Outgoing::FrameDone(d))
}

pub struct Compositor {
    tree: SurfaceTree,
    shell: Shell,
    seat: Seat,
    clients: ClientRegistry,
    outgoing: Vec<Outgoing>,
}

impl Compositor {
    pub closed spec fn tree(&self) -> SurfaceTree {
        self.tree
    }

    pub closed spec fn toplevels(&self) -> Seq<Toplevel> {
        self.shell.view()
    }

    pub closed spec fn focus(&self) -> Option<usize> {
        self.seat.focus
    }

    pub closed spec fn serial(&self) -> u32 {
        self.seat.serial
    }

    pub closed spec fn clients(&self) -> ClientRegistry {
        self.clients
    }

    pub closed spec fn outgoing(&self) -> Seq<Outgoing> {
        self.outgoing@
    }

    /// The order in which a frame pass meets surfaces: the trees of the
    /// toplevels, one after another in order of creation.
    pub open spec fn frame_order(&self) -> Seq<usize> {
        self.tree().walk_order(surfaces_of(self.toplevels()))
    }

    pub closed spec fn wf(&self) -> bool {
        &&& self.tree.wf()
        &&& self.shell.wf()
        &&& self.clients.wf()
        &&& forall|i: int|
            0 <= i < self.shell.view().len() ==> (#[trigger] self.shell.view()[i]).surface
                < self.tree.len() && self.tree.is_root(self.shell.view()[i].surface as int)
    }

    pub fn new() -> (c: Compositor)
        ensures
            c.wf(),
            c.tree().len() == 0,
            c.toplevels() == Seq::<Toplevel>::empty(),
            c.focus().is_none(),
            c.clients().live() == Seq::<u64>::empty(),
            c.outgoing() == Seq::<Outgoing>::empty(),
    {
        Compositor {
            tree: SurfaceTree::new(),
            shell: Shell::new(),
            seat: Seat::new(),
            clients: ClientRegistry::new(),
            outgoing: Vec::new(),
        }
    }

    pub fn surface_tree(&self) -> (t: &SurfaceTree)
        ensures
            *t == self.tree(),
    {
        &self.tree
    }

    pub fn shell(&self) -> (s: &Shell)
        ensures
            s.view() == self.toplevels(),
    {
        &self.shell
    }

    pub fn client_registry(&self) -> (r: &ClientRegistry)
        ensures
            *r == self.clients(),
    {
        &self.clients
    }

    pub fn keyboard_focus(&self) -> (f: Option<usize>)
        ensures
            f == self.focus(),
    {
        self.seat.focus
    }

    pub fn surface_count(&self) -> (n: usize)
        ensures
            n == self.tree().len(),
    {
        self.tree.len_exec()
    }
}

impl Compositor {
    proof fn lemma_roots_kept(&self, old: &Compositor)
        requires
            old.wf(),
            self.tree.wf(),
            self.shell == old.shell,
            self.clients == old.clients,
            self.tree.len() >= old.tree.len(),
            forall|i: int| 0 <= i < old.tree.len() ==> #[trigger] self.tree.parent(i) == old.tree.parent(i),
        ensures
            self.wf(),
    {
        assert forall|i: int| 0 <= i < self.shell.view().len() implies (#[trigger] self.shell.view()[i]).surface
            < self.tree.len() && self.tree.is_root(self.shell.view()[i].surface as int) by {
            let s = old.shell.view()[i].surface as int;
            assert(self.tree.parent(s) == old.tree.parent(s));
        }
    }

    /// Adds a surface, as a sub-surface of `parent` when one is given.
    /// Returns `None`, changing nothing, when `parent` names no surface or
    /// the arena is full.
    pub fn create_surface(&mut self, parent: Option<usize>) -> (r: Option<usize>)
        requires
            old(self).wf(),
        ensures
            final(self).wf(),
            r.is_some() <==> old(self).tree().len() < usize::MAX && match parent {
                Some(p) => p < old(self).tree().len(),
                None => true,
            },
            r.is_some() ==> r == Some(old(self).tree().len() as usize) && final(self).tree().len()
                == old(self).tree().len() + 1 && final(self).tree().parent(
                old(self).tree().len() as int,
            ) == parent,
            r.is_none() ==> final(self).tree() == old(self).tree(),
            forall|i: int|
                0 <= i < old(self).tree().len() ==> #[trigger] final(self).tree().parent(i) == old(
                    self,
                ).tree().parent(i) && final(self).tree().current(i) == old(self).tree().current(i)
                    && final(self).tree().pending(i) == old(self).tree().pending(i),
            final(self).toplevels() == old(self).toplevels(),
            final(self).focus() == old(self).focus(),
            final(self).clients() == old(self).clients(),
            final(self).outgoing() == old(self).outgoing(),
    {
        let n = self.tree.len_exec();
        if n == usize::MAX {
            return None;
        }
        match parent {
            Some(p) => {
                if p >= n {
                    return None;
                }
            },
            None => {},
        }
        let id = self.tree.create_surface(parent);
        proof { self.lemma_roots_kept(old(self)); }
        Some(id)
    }

    /// Asks that the next commit of `id` apply `assignment` to its buffer.
    pub fn attach(&mut self, id: usize, assignment: BufferAssignment)
        requires
            old(self).wf(),
            id < old(self).tree().len(),
        ensures
            final(self).wf(),
            final(self).tree().same_except(&old(self).tree(), id as int),
            final(self).tree().current(id as int) == old(self).tree().current(id as int),
            final(self).tree().pending(id as int) == (PendingView {
                buffer: assignment,
                ..old(self).tree().pending(id as int)
            }),
            final(self).toplevels() == old(self).toplevels(),
            final(self).outgoing() == old(self).outgoing(),
            final(self).focus() == old(self).focus(),
            final(self).clients() == old(self).clients(),
    {
        self.tree.attach(id, assignment);
        proof { self.lemma_roots_kept(old(self)); }
    }

    /// Asks that the next commit of `id` set its buffer scale.
    pub fn set_scale(&mut self, id: usize, scale: i32)
        requires
            old(self).wf(),
            id < old(self).tree().len(),
        ensures
            final(self).wf(),
            final(self).tree().same_except(&old(self).tree(), id as int),
            final(self).tree().current(id as int) == old(self).tree().current(id as int),
            final(self).tree().pending(id as int) == (PendingView {
                scale,
                ..old(self).tree().pending(id as int)
            }),
            final(self).toplevels() == old(self).toplevels(),
            final(self).outgoing() == old(self).outgoing(),
            final(self).focus() == old(self).focus(),
            final(self).clients() == old(self).clients(),
    {
        self.tree.set_scale(id, scale);
        proof { self.lemma_roots_kept(old(self)); }
    }

    /// Asks that the next commit of `id` set its buffer transform.
    pub fn set_transform(&mut self, id: usize, transform: Transform)
        requires
            old(self).wf(),
            id < old(self).tree().len(),
        ensures
            final(self).wf(),
            final(self).tree().same_except(&old(self).tree(), id as int),
            final(self).tree().current(id as int) == old(self).tree().current(id as int),
            final(self).tree().pending(id as int) == (PendingView {
                transform,
                ..old(self).tree().pending(id as int)
            }),
            final(self).toplevels() == old(self).toplevels(),
            final(self).outgoing() == old(self).outgoing(),
            final(self).focus() == old(self).focus(),
            final(self).clients() == old(self).clients(),
    {
        self.tree.set_transform(id, transform);
        proof { self.lemma_roots_kept(old(self)); }
    }

    /// Registers frame callback `callback` on `id`, queued by its next commit.
    pub fn request_frame(&mut self, id: usize, callback: u64)
        requires
            old(self).wf(),
            id < old(self).tree().len(),
        ensures
            final(self).wf(),
            final(self).tree().same_except(&old(self).tree(), id as int),
            final(self).tree().current(id as int) == old(self).tree().current(id as int),
            final(self).tree().pending(id as int) == (PendingView {
                frame_callbacks: old(self).tree().pending(id as int).frame_callbacks.push(callback),
                ..old(self).tree().pending(id as int)
            }),
            final(self).toplevels() == old(self).toplevels(),
            final(self).outgoing() == old(self).outgoing(),
            final(self).focus() == old(self).focus(),
            final(self).clients() == old(self).clients(),
    {
        self.tree.request_frame(id, callback);
        proof { self.lemma_roots_kept(old(self)); }
    }

    /// The commit handler: promotes the pending state of `id` at once,
    /// queues the release of the buffer it replaces, and completes the
    /// handshake of its toplevel. No configure is sent.
    pub fn commit(&mut self, id: usize)
        requires
            old(self).wf(),
            id < old(self).tree().len(),
        ensures
            final(self).wf(),
            final(self).tree().same_except(&old(self).tree(), id as int),
            final(self).tree().pending(id as int) == after_commit(old(self).tree().pending(id as int)),
            final(self).tree().current(id as int) == committed(
                old(self).tree().current(id as int),
                old(self).tree().pending(id as int),
            ),
            final(self).outgoing() == match released(
                old(self).tree().current(id as int),
                old(self).tree().pending(id as int),
            ) {
                Some(b) => old(self).outgoing().push(Outgoing::BufferReleased(b)),
                None => old(self).outgoing(),
            },
            final(self).toplevels() == old(self).toplevels().map_values(
                |t: Toplevel| on_commit_spec(t, id),
            ),
            final(self).focus() == old(self).focus(),
            final(self).clients() == old(self).clients(),
    {
        let rel = self.tree.commit(id);
        match rel {
            Some(b) => self.outgoing.push(Outgoing::BufferReleased(b)),
            None => {},
        }
        self.shell.on_commit(id);
        proof {
            assert forall|i: int| 0 <= i < self.shell.view().len() implies (#[trigger] self.shell.view()[i]).surface
                < self.tree.len() && self.tree.is_root(self.shell.view()[i].surface as int) by {
                assert(self.shell.view()[i] == on_commit_spec(old(self).shell.view()[i], id));
                let s = old(self).shell.view()[i].surface as int;
                assert(self.tree.parent(s) == old(self).tree.parent(s));
            }
        }
    }

    /// The shell handler for a new toplevel on `surface`: marks it activated
    /// and queues its one configure. Returns false, changing nothing, when
    /// `surface` is no root surface or is a toplevel already.
    pub fn new_toplevel(&mut self, surface: usize) -> (r: bool)
        requires
            old(self).wf(),
        ensures
            final(self).wf(),
            r <==> surface < old(self).tree().len() && old(self).tree().is_root(surface as int)
                && forall|i: int|
                0 <= i < old(self).toplevels().len() ==> (#[trigger] old(self).toplevels()[i]).surface
                    != surface,
            r ==> final(self).toplevels() == old(self).toplevels().push(configured_toplevel(surface))
                && final(self).outgoing() == old(self).outgoing().push(
                Outgoing::Configure { surface },
            ),
            !r ==> final(self).toplevels() == old(self).toplevels() && final(self).outgoing()
                == old(self).outgoing(),
            final(self).tree() == old(self).tree(),
            final(self).focus() == old(self).focus(),
            final(self).clients() == old(self).clients(),
    {
        if surface >= self.tree.len_exec() {
            return false;
        }
        if self.tree.parent_of(surface).is_some() {
            return false;
        }
        match self.shell.new_toplevel(surface) {
            Some(t) => {
                self.outgoing.push(Outgoing::Configure { surface: t.surface });
                proof {
                    assert forall|i: int| 0 <= i < self.shell.view().len() implies (#[trigger] self.shell.view()[i]).surface
                        < self.tree.len() && self.tree.is_root(self.shell.view()[i].surface as int) by {
                        if i < old(self).shell.view().len() {
                            assert(self.shell.view()[i] == old(self).shell.view()[i]);
                        }
                    }
                }
                true
            },
            None => false,
        }
    }

    /// Applies one input event through the seat, with the first toplevel
    /// as the target of the pointer focus policy.
    pub fn handle_input(&mut self, event: InputEvent) -> (r: Option<KeyDelivery>)
        requires
            old(self).wf(),
        ensures
            final(self).wf(),
            match event {
                InputEvent::Keyboard { key_code, state } => {
                    &&& r == Some(
                        KeyDelivery {
                            key_code,
                            state,
                            serial: old(self).serial(),
                            focus: old(self).focus(),
                        },
                    )
                    &&& final(self).serial() == next_serial(old(self).serial())
                    &&& final(self).focus() == old(self).focus()
                },
                InputEvent::PointerMotionAbsolute => {
                    &&& r.is_none()
                    &&& final(self).serial() == old(self).serial()
                    &&& final(self).focus() == if old(self).toplevels().len() > 0 {
                        Some(old(self).toplevels()[0].surface)
                    } else {
                        old(self).focus()
                    }
                },
                _ => r.is_none() && final(self).serial() == old(self).serial() && final(self).focus()
                    == old(self).focus(),
            },
            final(self).tree() == old(self).tree(),
            final(self).toplevels() == old(self).toplevels(),
            final(self).clients() == old(self).clients(),
            final(self).outgoing() == old(self).outgoing(),
    {
        let first = self.shell.first_surface();
        self.seat.handle_event(event, first)
    }

    /// Registers an accepted connection; see `ClientRegistry::insert`.
    pub fn client_connected(&mut self) -> (r: Option<u64>)
        requires
            old(self).wf(),
        ensures
            final(self).wf(),
            r.is_some() <==> old(self).clients().next_id() < u64::MAX,
            r.is_some() ==> r == Some(old(self).clients().next_id()) && final(self).clients().live()
                == old(self).clients().live().push(old(self).clients().next_id()),
            r.is_none() ==> final(self).clients().live() == old(self).clients().live(),
            final(self).clients().disconnects() == old(self).clients().disconnects(),
            final(self).tree() == old(self).tree(),
            final(self).toplevels() == old(self).toplevels(),
            final(self).outgoing() == old(self).outgoing(),
    {
        self.clients.insert()
    }

    /// Removes a client that went away and records the reason; see
    /// `ClientRegistry::remove`.
    pub fn client_disconnected(&mut self, client: u64, reason: DisconnectReason) -> (r: bool)
        requires
            old(self).wf(),
        ensures
            final(self).wf(),
            r == old(self).clients().live().contains(client),
            forall|x: u64|
                final(self).clients().live().contains(x) <==> old(self).clients().live().contains(x)
                    && x != client,
            r ==> final(self).clients().live().len() == old(self).clients().live().len() - 1
                && final(self).clients().disconnects() == old(self).clients().disconnects().push(
                Disconnect { client, reason },
            ),
            !r ==> final(self).clients().live() == old(self).clients().live()
                && final(self).clients().disconnects() == old(self).clients().disconnects(),
            final(self).tree() == old(self).tree(),
            final(self).toplevels() == old(self).toplevels(),
            final(self).outgoing() == old(self).outgoing(),
    {
        self.clients.remove(client, reason)
    }

    /// Hands over every queued outgoing message, oldest first, and empties
    /// the queue.
    pub fn flush(&mut self) -> (msgs: Vec<Outgoing>)
        requires
            old(self).wf(),
        ensures
            final(self).wf(),
            msgs@ == old(self).outgoing(),
            final(self).outgoing() == Seq::<Outgoing>::empty(),
            final(self).tree() == old(self).tree(),
            final(self).toplevels() == old(self).toplevels(),
            final(self).clients() == old(self).clients(),
            final(self).focus() == old(self).focus(),
    {
        let mut msgs: Vec<Outgoing> = Vec::new();
        std::mem::swap(&mut msgs, &mut self.outgoing);
        msgs
    }
}

impl Compositor {
    /// One frame pass at time `time` (milliseconds since the loop started)
    /// on an output of `width` by `height` pixels: draws every surface with
    /// a buffer in the trees of the toplevels, then releases the frame
    /// callbacks of those surfaces, all stamped `time`, into the outgoing
    /// queue. The damage is the whole output.
    pub fn render_frame(&mut self, width: u32, height: u32, time: u32) -> (frame: RenderedFrame)
        requires
            old(self).wf(),
        ensures
            final(self).wf(),
            frame.damage == full_damage(width, height),
            frame.draws@ == draws_of(old(self).tree(), old(self).frame_order()),
            final(self).outgoing() == old(self).outgoing() + done_messages(
                old(self).tree().dones_for(old(self).frame_order(), time),
            ),
            final(self).tree().len() == old(self).tree().len(),
            forall|i: usize|
                i < old(self).tree().len() ==> #[trigger] final(self).tree().parent(i as int) == old(
                    self,
                ).tree().parent(i as int) && final(self).tree().pending(i as int) == old(
                    self,
                ).tree().pending(i as int) && final(self).tree().current(i as int)
                    == if old(self).frame_order().contains(i) {
                    drained(old(self).tree().current(i as int))
                } else {
                    old(self).tree().current(i as int)
                },
            final(self).toplevels() == old(self).toplevels(),
            final(self).focus() == old(self).focus(),
            final(self).clients() == old(self).clients(),
    {
        let roots = self.shell.surfaces();
        proof {
            assert forall|i: int| 0 <= i < roots.len() implies roots[i] < self.tree.len()
                && self.tree.is_root(#[trigger] roots[i] as int) by {
                assert(roots[i] == self.shell.view()[i].surface);
            }
        }
        let order = self.tree.traverse_roots(&roots);
        proof {
            assert forall|j: int| 0 <= j < order.len() implies #[trigger] order[j] < self.tree.len() by {
                assert(order@.contains(order@[j]));
            }
        }
        let mut draws: Vec<DrawCommand> = Vec::new();
        let mut k: usize = 0;
        while k < order.len()
            invariant
                self.wf(),
                self.tree == old(self).tree,
                k <= order.len(),
                order@ == self.frame_order(),
                forall|j: int| 0 <= j < order.len() ==> #[trigger] order[j] < self.tree.len(),
                draws@ == draws_of(self.tree, order@.take(k as int)),
            decreases order.len() - k,
        {
            let id = order[k];
            proof {
                assert(order@.take(k as int + 1).drop_last() == order@.take(k as int));
            }
            match self.tree.current_buffer(id) {
                Some(b) => {
                    let scale = self.tree.current_scale(id);
                    let transform = self.tree.current_transform(id);
                    draws.push(DrawCommand { surface: id, buffer: b, scale, transform });
                },
                None => {},
            }
            k = k + 1;
        }
        proof {
            assert(order@.take(order.len() as int) == order@);
        }
        let dones = self.tree.drain_frame_callbacks(&order, time);
        let ghost before = self.outgoing@;
        let ghost t1 = self.tree;
        let mut k: usize = 0;
        while k < dones.len()
            invariant
                k <= dones.len(),
                self.tree == t1,
                self.shell == old(self).shell,
                self.seat == old(self).seat,
                self.clients == old(self).clients,
                self.outgoing@ == before + done_messages(dones@.take(k as int)),
            decreases dones.len() - k,
        {
            self.outgoing.push(Outgoing::FrameDone(dones[k]));
            proof {
                assert(dones@.take(k as int + 1) == dones@.take(k as int).push(dones@[k as int]));
                assert(self.outgoing@ =~= before + done_messages(dones@.take(k as int + 1)));
            }
            k = k + 1;
        }
        proof {
            assert(dones@.take(dones.len() as int) == dones@);
            assert forall|i: int| 0 <= i < self.shell.view().len() implies (#[trigger] self.shell.view()[i]).surface
                < self.tree.len() && self.tree.is_root(self.shell.view()[i].surface as int) by {
                assert(self.shell.view()[i] == old(self).shell.view()[i]);
                let s = self.shell.view()[i].surface;
                assert(s < old(self).tree.len());
                assert(self.tree.parent(s as int) == old(self).tree.parent(s as int));
            }
        }
        RenderedFrame { damage: Rectangle { x: 0, y: 0, width, height }, draws }
    }
}

} // verus!
