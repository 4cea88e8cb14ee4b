//! The surface arena: surfaces are named by their index, hold a current and
//! a pending attribute set, and link to their parent by index.
use vstd::prelude::*;

verus! {

/// A client buffer as the core sees it: an identity and its size in pixels.
#[derive(Clone, Copy, Debug, PartialEq, Eq, Structural)]
pub struct Buffer {
    pub id: u64,
    pub width: u32,
    pub height: u32,
}

/// How a buffer's content is rotated or mirrored onto the output.
#[derive(Clone, Copy, Debug, PartialEq, Eq, Structural)]
pub enum Transform {
    Normal,
    Rotated90,
    Rotated180,
    Rotated270,
    Flipped,
    Flipped90,
    Flipped180,
    Flipped270,
}

/// What the next commit does with the current buffer.
#[derive(Clone, Copy, Debug, PartialEq, Eq, Structural)]
pub enum BufferAssignment {
    /// Keep the current buffer.
    Unchanged,
    /// Replace it by this one.
    Attached(Buffer),
    /// Leave the surface without a buffer.
    Removed,
}

/// The state that readers of a surface see.
pub struct SurfaceAttributes {
    pub buffer: Option<Buffer>,
    pub scale: i32,
    pub transform: Transform,
    pub frame_callbacks: Vec<u64>,
}

/// The state a client builds up between two commits.
pub struct PendingAttributes {
    pub buffer: BufferAssignment,
    pub scale: i32,
    pub transform: Transform,
    pub frame_callbacks: Vec<u64>,
}

/// Mathematical value of a current attribute set.
pub struct AttrsView {
    pub buffer: Option<Buffer>,
    pub scale: i32,
    pub transform: Transform,
    pub frame_callbacks: Seq<u64>,
}

/// Mathematical value of a pending attribute set.
pub struct PendingView {
    pub buffer: BufferAssignment,
    pub scale: i32,
    pub transform: Transform,
    pub frame_callbacks: Seq<u64>,
}

impl SurfaceAttributes {
    pub open spec fn view(&self) -> AttrsView {
        AttrsView {
            buffer: self.buffer,
            scale: self.scale,
            transform: self.transform,
            frame_callbacks: self.frame_callbacks@,
        }
    }
}

impl PendingAttributes {
    pub open spec fn view(&self) -> PendingView {
        PendingView {
            buffer: self.buffer,
            scale: self.scale,
            transform: self.transform,
            frame_callbacks: self.frame_callbacks@,
        }
    }
}

/// The attribute set a fresh surface starts with, current and pending alike.
pub open spec fn initial_attrs() -> AttrsView {
    AttrsView { buffer: None, scale: 1, transform: Transform::Normal, frame_callbacks: Seq::empty() }
}

pub open spec fn initial_pending() -> PendingView {
    PendingView {
        buffer: BufferAssignment::Unchanged,
        scale: 1,
        transform: Transform::Normal,
        frame_callbacks: Seq::empty(),
    }
}

/// The current state that a commit installs: every pending field at once,
/// with the newly requested frame callbacks queued behind the waiting ones.
pub open spec fn committed(cur: AttrsView, pend: PendingView) -> AttrsView {
    AttrsView {
        buffer: match pend.buffer {
            BufferAssignment::Unchanged => cur.buffer,
            BufferAssignment::Attached(b) => Some(b),
            BufferAssignment::Removed => None,
        },
        scale: pend.scale,
        transform: pend.transform,
        frame_callbacks: cur.frame_callbacks + pend.frame_callbacks,
    }
}

/// The pending state left behind by a commit: the buffer request and the
/// callbacks are consumed, scale and transform stay as they were asked.
pub open spec fn after_commit(pend: PendingView) -> PendingView {
    PendingView {
        buffer: BufferAssignment::Unchanged,
        scale: pend.scale,
        transform: pend.transform,
        frame_callbacks: Seq::empty(),
    }
}

/// The buffer that a commit takes out of use, if any.
pub open spec fn released(cur: AttrsView, pend: PendingView) -> Option<Buffer> {
    match pend.buffer {
        BufferAssignment::Unchanged => None,
        BufferAssignment::Attached(b) => if cur.buffer == Some(b) {
            None
        } else {
            cur.buffer
        },
        BufferAssignment::Removed => cur.buffer,
    }
}

/// One surface of the arena.
pub struct Surface {
    parent: Option<usize>,
    current: SurfaceAttributes,
    pending: PendingAttributes,
}

/// The arena of all surfaces. A surface's index is its identity; a child is
/// always created after its parent, so it has the larger index.
pub struct SurfaceTree {
    surfaces: Vec<Surface>,
    /// For each surface, the current states that whole operations have
    /// installed, oldest first.
    snapshots: Ghost<Seq<Seq<AttrsView>>>,
}

impl SurfaceTree {
    pub closed spec fn len(&self) -> nat {
        self.surfaces@.len()
    }

    pub closed spec fn parent(&self, id: int) -> Option<usize> {
        self.surfaces@[id].parent
    }

    pub closed spec fn current(&self, id: int) -> AttrsView {
        self.surfaces@[id].current.view()
    }

    pub closed spec fn pending(&self, id: int) -> PendingView {
        self.surfaces@[id].pending.view()
    }

    pub closed spec fn snapshots(&self, id: int) -> Seq<AttrsView> {
        self.snapshots@[id]
    }

    /// `id` lies in the subtree rooted at `root` (`root` included).
    pub open spec fn in_subtree(&self, root: int, id: int) -> bool
        decreases id,
    {
        if id == root {
            true
        } else {
            match self.parent(id) {
                Some(p) => 0 <= p < id && self.in_subtree(root, p as int),
                None => false,
            }
        }
    }

    /// The order in which a walk over the subtrees of `roots` meets surfaces.
    pub open spec fn walk_order(&self, roots: Seq<usize>) -> Seq<usize>
        decreases roots.len(),
    {
        if roots.len() == 0 {
            Seq::empty()
        } else {
            self.walk_order(roots.drop_last()) + self.preorder(roots.last() as int)
        }
    }

    pub open spec fn is_root(&self, id: int) -> bool {
        self.parent(id).is_none()
    }

    pub closed spec fn wf(&self) -> bool {
        &&& self.snapshots@.len() == self.surfaces@.len()
        &&& self.surfaces@.len() <= usize::MAX
        &&& forall|i: int|
            0 <= i < self.len() ==> match #[trigger] self.parent(i) {
                Some(p) => p < i,
                None => true,
            }
        &&& forall|i: int|
            0 <= i < self.len() ==> (#[trigger] self.snapshots(i)).len() >= 1
                && self.snapshots(i).last() == self.current(i)
    }

    /// Every surface has a smaller-indexed parent or none.
    pub proof fn lemma_parent_precedes(&self, id: int)
        requires
            self.wf(),
            0 <= id < self.len(),
        ensures
            match self.parent(id) {
                Some(p) => p < id,
                None => true,
            },
    {
    }

    /// A member of a subtree is never below its root's index.
    pub proof fn lemma_subtree_above_root(&self, root: int, id: int)
        requires
            self.in_subtree(root, id),
        ensures
            root <= id,
        decreases id,
    {
        if id != root {
            let p = self.parent(id).unwrap();
            self.lemma_subtree_above_root(root, p as int);
        }
    }

    /// A surface lies under at most one root.
    pub proof fn lemma_one_root(&self, r1: int, r2: int, id: int)
        requires
            self.wf(),
            0 <= r1 < self.len(),
            0 <= r2 < self.len(),
            self.is_root(r1),
            self.is_root(r2),
            self.in_subtree(r1, id),
            self.in_subtree(r2, id),
        ensures
            r1 == r2,
        decreases id,
    {
        if id != r1 && id != r2 {
            let p = self.parent(id).unwrap();
            self.lemma_one_root(r1, r2, p as int);
        }
    }

    pub fn new() -> (t: SurfaceTree)
        ensures
            t.wf(),
            t.len() == 0,
    {
        SurfaceTree { surfaces: Vec::new(), snapshots: Ghost(Seq::empty()) }
    }

    pub fn len_exec(&self) -> (n: usize)
        ensures
            n == self.len(),
    {
        self.surfaces.len()
    }

    /// Adds a surface, as a child of `parent` when one is given, and returns
    /// its identity.
    pub fn create_surface(&mut self, parent: Option<usize>) -> (id: usize)
        requires
            old(self).wf(),
            old(self).len() < usize::MAX,
            match parent {
                Some(p) => p < old(self).len(),
                None => true,
            },
        ensures
            final(self).wf(),
            id == old(self).len(),
            final(self).len() == old(self).len() + 1,
            final(self).parent(id as int) == parent,
            final(self).current(id as int) == initial_attrs(),
            final(self).pending(id as int) == initial_pending(),
            forall|i: int|
                0 <= i < old(self).len() ==> final(self).parent(i) == old(self).parent(i)
                    && final(self).current(i) == old(self).current(i)
                    && final(self).pending(i) == old(self).pending(i),
    {
        let id = self.surfaces.len();
        let s = Surface {
            parent,
            current: SurfaceAttributes {
                buffer: None,
                scale: 1,
                transform: Transform::Normal,
                frame_callbacks: Vec::new(),
            },
            pending: PendingAttributes {
                buffer: BufferAssignment::Unchanged,
                scale: 1,
                transform: Transform::Normal,
                frame_callbacks: Vec::new(),
            },
        };
        self.surfaces.push(s);
        self.snapshots = Ghost(self.snapshots@.push(seq![initial_attrs()]));
        proof {
            assert(self.current(id as int) == initial_attrs());
            assert forall|i: int| 0 <= i < self.len() implies match #[trigger] self.parent(i) {
                Some(p) => p < i,
                None => true,
            } by {
                if i < id {
                    assert(self.parent(i) == old(self).parent(i));
                }
            }
            assert forall|i: int| 0 <= i < self.len() implies (#[trigger] self.snapshots(i)).len()
                >= 1 && self.snapshots(i).last() == self.current(i) by {
                if i < id {
                    assert(self.snapshots(i) == old(self).snapshots(i));
                    assert(self.current(i) == old(self).current(i));
                }
            }
        }
        id
    }
}

/// A frame callback released by a frame pass, with the pass's timestamp.
#[derive(Clone, Copy, Debug, PartialEq, Eq, Structural)]
pub struct FrameDone {
    pub surface: usize,
    pub callback: u64,
    pub time: u32,
}

/// The notifications that releasing the queue `cbs` of `surface` sends.
pub open spec fn dones_of(cbs: Seq<u64>, surface: usize, time: u32) -> Seq<FrameDone> {
    cbs.map_values(|c: u64| FrameDone { surface, callback: c, time })
}

/// The current state after its frame callbacks were released.
pub open spec fn drained(a: AttrsView) -> AttrsView {
    AttrsView { frame_callbacks: Seq::empty(), ..a }
}

impl SurfaceTree {
    /// All surfaces other than `id` are as in `old`, and `id` keeps its parent.
    pub open spec fn same_except(&self, old: &SurfaceTree, id: int) -> bool {
        &&& self.len() == old.len()
        &&& self.parent(id) == old.parent(id)
        &&& forall|i: int|
            0 <= i < self.len() && i != id ==> #[trigger] self.parent(i) == old.parent(i)
                && self.current(i) == old.current(i) && self.pending(i) == old.pending(i)
                && self.snapshots(i) == old.snapshots(i)
    }

    /// The notifications that a frame pass over `order` sends, in order.
    pub open spec fn dones_for(&self, order: Seq<usize>, time: u32) -> Seq<FrameDone>
        decreases order.len(),
    {
        if order.len() == 0 {
            Seq::empty()
        } else {
            self.dones_for(order.drop_last(), time) + dones_of(
                self.current(order.last() as int).frame_callbacks,
                order.last(),
                time,
            )
        }
    }

    pub fn parent_of(&self, id: usize) -> (p: Option<usize>)
        requires
            id < self.len(),
        ensures
            p == self.parent(id as int),
    {
        self.surfaces[id].parent
    }

    pub fn current_buffer(&self, id: usize) -> (b: Option<Buffer>)
        requires
            id < self.len(),
        ensures
            b == self.current(id as int).buffer,
    {
        self.surfaces[id].current.buffer
    }

    pub fn current_scale(&self, id: usize) -> (s: i32)
        requires
            id < self.len(),
        ensures
            s == self.current(id as int).scale,
    {
        self.surfaces[id].current.scale
    }

    pub fn current_transform(&self, id: usize) -> (t: Transform)
        requires
            id < self.len(),
        ensures
            t == self.current(id as int).transform,
    {
        self.surfaces[id].current.transform
    }

    pub fn queued_callbacks(&self, id: usize) -> (n: usize)
        requires
            id < self.len(),
        ensures
            n == self.current(id as int).frame_callbacks.len(),
    {
        self.surfaces[id].current.frame_callbacks.len()
    }

    /// Asks that the next commit apply `assignment` to the buffer.
    pub fn attach(&mut self, id: usize, assignment: BufferAssignment)
        requires
            old(self).wf(),
            id < old(self).len(),
        ensures
            final(self).wf(),
            final(self).same_except(old(self), id as int),
            final(self).current(id as int) == old(self).current(id as int),
            final(self).snapshots(id as int) == old(self).snapshots(id as int),
            final(self).pending(id as int) == (PendingView {
                buffer: assignment,
                ..old(self).pending(id as int)
            }),
    {
        self.surfaces[id].pending.buffer = assignment;
        proof { self.lemma_wf_kept(old(self), id as int); }
    }

    /// Asks that the next commit set the buffer scale.
    pub fn set_scale(&mut self, id: usize, scale: i32)
        requires
            old(self).wf(),
            id < old(self).len(),
        ensures
            final(self).wf(),
            final(self).same_except(old(self), id as int),
            final(self).current(id as int) == old(self).current(id as int),
            final(self).snapshots(id as int) == old(self).snapshots(id as int),
            final(self).pending(id as int) == (PendingView { scale, ..old(self).pending(id as int) }),
    {
        self.surfaces[id].pending.scale = scale;
        proof { self.lemma_wf_kept(old(self), id as int); }
    }

    /// Asks that the next commit set the buffer transform.
    pub fn set_transform(&mut self, id: usize, transform: Transform)
        requires
            old(self).wf(),
            id < old(self).len(),
        ensures
            final(self).wf(),
            final(self).same_except(old(self), id as int),
            final(self).current(id as int) == old(self).current(id as int),
            final(self).snapshots(id as int) == old(self).snapshots(id as int),
            final(self).pending(id as int) == (PendingView {
                transform,
                ..old(self).pending(id as int)
            }),
    {
        self.surfaces[id].pending.transform = transform;
        proof { self.lemma_wf_kept(old(self), id as int); }
    }

    /// Registers a frame callback, to be queued by the next commit.
    pub fn request_frame(&mut self, id: usize, callback: u64)
        requires
            old(self).wf(),
            id < old(self).len(),
        ensures
            final(self).wf(),
            final(self).same_except(old(self), id as int),
            final(self).current(id as int) == old(self).current(id as int),
            final(self).snapshots(id as int) == old(self).snapshots(id as int),
            final(self).pending(id as int) == (PendingView {
                frame_callbacks: old(self).pending(id as int).frame_callbacks.push(callback),
                ..old(self).pending(id as int)
            }),
    {
        self.surfaces[id].pending.frame_callbacks.push(callback);
        proof { self.lemma_wf_kept(old(self), id as int); }
    }

    proof fn lemma_wf_kept(&self, old: &SurfaceTree, id: int)
        requires
            old.wf(),
            0 <= id < old.len(),
            self.same_except(old, id),
            self.snapshots@.len() == old.snapshots@.len(),
            (self.snapshots(id) == old.snapshots(id) && self.current(id) == old.current(id)) || (
            self.snapshots(id).len() >= 1 && self.snapshots(id).last() == self.current(id)),
        ensures
            self.wf(),
    {
        assert forall|i: int| 0 <= i < self.len() implies match #[trigger] self.parent(i) {
            Some(p) => p < i,
            None => true,
        } by {
            assert(old.parent(i) == self.parent(i));
        }
        assert forall|i: int| 0 <= i < self.len() implies (#[trigger] self.snapshots(i)).len()
            >= 1 && self.snapshots(i).last() == self.current(i) by {
            assert(old.parent(i) == self.parent(i));
            assert(old.snapshots(i).len() >= 1);
        }
    }

    /// Promotes the pending state of `id` to its current state in one step
    /// and returns the buffer that this takes out of use.
    pub fn commit(&mut self, id: usize) -> (rel: Option<Buffer>)
        requires
            old(self).wf(),
            id < old(self).len(),
        ensures
            final(self).wf(),
            final(self).same_except(old(self), id as int),
            final(self).current(id as int) == committed(
                old(self).current(id as int),
                old(self).pending(id as int),
            ),
            final(self).pending(id as int) == after_commit(old(self).pending(id as int)),
            final(self).snapshots(id as int) == old(self).snapshots(id as int).push(
                final(self).current(id as int),
            ),
            rel == released(old(self).current(id as int), old(self).pending(id as int)),
    {
        let mut cbs: Vec<u64> = Vec::new();
        std::mem::swap(&mut cbs, &mut self.surfaces[id].pending.frame_callbacks);
        let assignment = self.surfaces[id].pending.buffer;
        let old_buffer = self.surfaces[id].current.buffer;
        let (new_buffer, rel) = match assignment {
            BufferAssignment::Unchanged => (old_buffer, None),
            BufferAssignment::Attached(b) => {
                let same = match old_buffer {
                    Some(o) => o == b,
                    None => false,
                };
                if same {
                    (Some(b), None)
                } else {
                    (Some(b), old_buffer)
                }
            },
            BufferAssignment::Removed => (None, old_buffer),
        };
        let scale = self.surfaces[id].pending.scale;
        let transform = self.surfaces[id].pending.transform;
        self.surfaces[id].current.buffer = new_buffer;
        self.surfaces[id].current.scale = scale;
        self.surfaces[id].current.transform = transform;
        self.surfaces[id].current.frame_callbacks.append(&mut cbs);
        self.surfaces[id].pending.buffer = BufferAssignment::Unchanged;
        let ghost snaps = self.snapshots@;
        self.snapshots = Ghost(snaps.update(id as int, snaps[id as int].push(self.current(id as int))));
        proof {
            assert(self.current(id as int) == committed(
                old(self).current(id as int),
                old(self).pending(id as int),
            ));
            assert(self.pending(id as int) == after_commit(old(self).pending(id as int)));
            self.lemma_wf_kept(old(self), id as int);
        }
        rel
    }
}

impl SurfaceTree {
    /// Walks the subtree under `root` downward in pre-order: `root`, then
    /// the subtree of each child in order of creation. Every surface of the
    /// subtree is met once, and each after its parent.
    pub fn traverse_downward(&self, root: usize) -> (order: Vec<usize>)
        requires
            self.wf(),
            root < self.len(),
        ensures
            order@ == self.preorder(root as int),
            forall|x: usize|
                order@.contains(x) <==> x < self.len() && self.in_subtree(root as int, x as int),
            order@.no_duplicates(),
            forall|a: int, b: int|
                0 <= a < order.len() && 0 <= b < order.len() && self.parent(order[b] as int)
                    == Some(order[a]) ==> a < b,
            order.len() >= 1,
            order[0] == root,
    {
        let mut order: Vec<usize> = Vec::new();
        self.walk(root, &mut order);
        proof {
            assert(order@ == self.preorder(root as int));
            self.lemma_preorder_members(root as int);
            self.lemma_preorder_distinct(root as int);
            self.lemma_preorder_parent_first(root as int);
            let o = order@;
            assert forall|x: usize|
                o.contains(x) <==> x < self.len() && self.in_subtree(root as int, x as int) by {
                self.lemma_preorder_members(root as int);
                if o.contains(x) {
                    assert(self.preorder(root as int).contains(x));
                }
                if x < self.len() && self.in_subtree(root as int, x as int) {
                    assert(self.preorder(root as int).contains(x));
                }
            }
            assert forall|a: int, b: int|
                0 <= a < o.len() && 0 <= b < o.len() && self.parent(o[b] as int) == Some(o[a])
                    implies a < b by {
                assert(o.contains(o[a]));
                assert(o.contains(o[b]));
                if b == 0 {
                    self.lemma_parent_precedes(root as int);
                    self.lemma_subtree_above_root(root as int, o[a] as int);
                } else {
                    let a2 = choose|a2: int|
                        0 <= a2 < b && Some(#[trigger] o[a2]) == self.parent(o[b] as int);
                    if a2 != a {
                        assert(o[a2] == o[a]);
                    }
                }
            }
        }
        order
    }

    /// Walks the subtrees of the distinct roots `roots`, one after another.
    pub fn traverse_roots(&self, roots: &Vec<usize>) -> (order: Vec<usize>)
        requires
            self.wf(),
            roots@.no_duplicates(),
            forall|i: int|
                0 <= i < roots.len() ==> roots[i] < self.len() && self.is_root(
                    #[trigger] roots[i] as int,
                ),
        ensures
            forall|x: usize|
                order@.contains(x) <==> x < self.len() && exists|i: int|
                    0 <= i < roots.len() && self.in_subtree(#[trigger] roots[i] as int, x as int),
            order@.no_duplicates(),
            forall|a: int, b: int|
                0 <= a < order.len() && 0 <= b < order.len() && self.parent(order[b] as int)
                    == Some(order[a]) ==> a < b,
            order@ == self.walk_order(roots@),
    {
        let mut order: Vec<usize> = Vec::new();
        let mut k: usize = 0;
        while k < roots.len()
            invariant
                self.wf(),
                k <= roots.len(),
                roots@.no_duplicates(),
                forall|i: int|
                    0 <= i < roots.len() ==> roots[i] < self.len() && self.is_root(
                        #[trigger] roots[i] as int,
                    ),
                forall|x: usize|
                    order@.contains(x) <==> x < self.len() && exists|i: int|
                        0 <= i < k && self.in_subtree(#[trigger] roots[i] as int, x as int),
                order@.no_duplicates(),
                forall|a: int, b: int|
                    0 <= a < order.len() && 0 <= b < order.len() && self.parent(order[b] as int)
                        == Some(order[a]) ==> a < b,
                order@ == self.walk_order(roots@.take(k as int)),
            decreases roots.len() - k,
        {
            let r = roots[k];
            let mut chunk = self.traverse_downward(r);
            let ghost before = order@;
            let ghost c = chunk@;
            proof {
                // the chunk shares no surface with what came before
                assert forall|x: usize| before.contains(x) implies !c.contains(x) by {
                    if c.contains(x) {
                        let i = choose|i: int|
                            0 <= i < k && self.in_subtree(#[trigger] roots[i] as int, x as int);
                        self.lemma_one_root(roots[i] as int, r as int, x as int);
                    }
                }
            }
            order.append(&mut chunk);
            proof {
                let o = order@;
                assert(o == before + c);
                assert(roots@.take(k as int + 1).drop_last() == roots@.take(k as int));
                assert forall|a: int, b: int| 0 <= a < b < o.len() implies o[a] != o[b] by {
                    if b < before.len() {
                    } else if a >= before.len() {
                        assert(c[a - before.len()] != c[b - before.len()]);
                    } else {
                        assert(before.contains(o[a]));
                        assert(c.contains(o[b]));
                    }
                }
                assert forall|x: usize|
                    o.contains(x) <==> x < self.len() && exists|i: int|
                        0 <= i < k + 1 && self.in_subtree(#[trigger] roots[i] as int, x as int) by {
                    if o.contains(x) {
                        if before.contains(x) {
                        } else {
                            let j = choose|j: int| 0 <= j < o.len() && o[j] == x;
                            assert(c[j - before.len()] == x);
                            assert(c.contains(x));
                            assert(roots[k as int] == r);
                        }
                    }
                    if x < self.len() && exists|i: int|
                        0 <= i < k + 1 && self.in_subtree(#[trigger] roots[i] as int, x as int) {
                        let i = choose|i: int|
                            0 <= i < k + 1 && self.in_subtree(#[trigger] roots[i] as int, x as int);
                        if i < k {
                            assert(before.contains(x));
                            let j = choose|j: int| 0 <= j < before.len() && before[j] == x;
                            assert(o[j] == x);
                        } else {
                            assert(c.contains(x));
                            let j = choose|j: int| 0 <= j < c.len() && c[j] == x;
                            assert(o[j + before.len()] == x);
                        }
                    }
                }
                assert forall|a: int, b: int|
                    0 <= a < o.len() && 0 <= b < o.len() && self.parent(o[b] as int) == Some(
                        o[a],
                    ) implies a < b by {
                    let p = o[a];
                    let x = o[b];
                    assert(o.contains(x));
                    self.lemma_parent_precedes(x as int);
                    if a >= before.len() && b >= before.len() {
                        assert(c[a - before.len()] == p);
                        assert(c[b - before.len()] == x);
                    } else if a >= before.len() && b < before.len() {
                        assert(before.contains(x));
                        assert(c.contains(p));
                        let i = choose|i: int|
                            0 <= i < k && self.in_subtree(#[trigger] roots[i] as int, x as int);
                        assert(x != roots[i]);
                        assert(self.in_subtree(roots[i] as int, p as int));
                        assert(before.contains(p));
                    }
                }
            }
            k = k + 1;
        }
        proof {
            assert(roots@.take(roots.len() as int) == roots@);
        }
        order
    }
}

impl SurfaceTree {
    /// The root above `id`.
    pub open spec fn root_of(&self, id: int) -> int
        decreases id,
    {
        match self.parent(id) {
            Some(p) => if 0 <= p < id {
                self.root_of(p as int)
            } else {
                id
            },
            None => id,
        }
    }

    pub proof fn lemma_root_of(&self, id: int)
        requires
            self.wf(),
            0 <= id < self.len(),
        ensures
            0 <= self.root_of(id) < self.len(),
            self.is_root(self.root_of(id)),
            self.in_subtree(self.root_of(id), id),
        decreases id,
    {
        self.lemma_parent_precedes(id);
        match self.parent(id) {
            Some(p) => {
                self.lemma_root_of(p as int);
            },
            None => {},
        }
    }

    /// The roots of the arena, in order of creation.
    pub fn roots(&self) -> (roots: Vec<usize>)
        requires
            self.wf(),
        ensures
            forall|x: usize| roots@.contains(x) <==> x < self.len() && self.is_root(x as int),
            forall|a: int| 0 <= a < roots.len() ==> #[trigger] roots[a] < self.len() && self.is_root(roots[a] as int),
            forall|a: int, b: int| 0 <= a < b < roots.len() ==> roots[a] < roots[b],
    {
        let mut roots: Vec<usize> = Vec::new();
        let mut i: usize = 0;
        while i < self.surfaces.len()
            invariant
                i <= self.len(),
                forall|x: usize| roots@.contains(x) <==> x < i && self.is_root(x as int),
                forall|a: int, b: int| 0 <= a < b < roots.len() ==> roots[a] < roots[b],
                forall|a: int| 0 <= a < roots.len() ==> roots[a] < i,
                forall|a: int| 0 <= a < roots.len() ==> #[trigger] roots[a] < self.len() && self.is_root(roots[a] as int),
            decreases self.len() - i,
        {
            let ghost prev = roots@;
            if self.surfaces[i].parent.is_none() {
                roots.push(i);
            }
            proof {
                assert forall|x: usize|
                    roots@.contains(x) <==> x < i + 1 && self.is_root(x as int) by {
                    if x == i && self.is_root(x as int) {
                        assert(roots@[roots@.len() - 1] == x);
                    }
                    if x != i && roots@.contains(x) {
                        let j = choose|j: int| 0 <= j < roots@.len() && roots@[j] == x;
                        assert(prev[j] == x);
                    }
                    if x < i && self.is_root(x as int) {
                        let j = choose|j: int| 0 <= j < prev.len() && prev[j] == x;
                        assert(roots@[j] == x);
                    }
                }
            }
            i = i + 1;
        }
        roots
    }

    /// Walks the whole arena: every surface exactly once, each after its
    /// parent.
    pub fn traverse_all(&self) -> (order: Vec<usize>)
        requires
            self.wf(),
        ensures
            forall|x: usize| order@.contains(x) <==> x < self.len(),
            order@.no_duplicates(),
            forall|a: int, b: int|
                0 <= a < order.len() && 0 <= b < order.len() && self.parent(order[b] as int)
                    == Some(order[a]) ==> a < b,
    {
        let roots = self.roots();
        proof {
            assert forall|a: int, b: int| 0 <= a < b < roots.len() implies roots[a] != roots[b] by {
            }
            assert forall|i: int| 0 <= i < roots.len() implies roots[i] < self.len()
                && self.is_root(#[trigger] roots[i] as int) by {
                assert(roots[i] < self.len());
            }
        }
        let order = self.traverse_roots(&roots);
        proof {
            assert forall|x: usize| x < self.len() implies order@.contains(x) by {
                self.lemma_root_of(x as int);
                let r = self.root_of(x as int) as usize;
                assert(r as int == self.root_of(x as int));
                assert(r < self.len() && self.is_root(r as int));
                assert(roots@.contains(r));
                let i = choose|i: int| 0 <= i < roots.len() && roots[i] == r;
                assert(self.in_subtree(roots[i] as int, x as int));
            }
        }
        order
    }

    /// Releases the frame callbacks of every surface in `order`, in that
    /// order, all stamped with the one time `time`.
    pub fn drain_frame_callbacks(&mut self, order: &Vec<usize>, time: u32) -> (dones: Vec<
        FrameDone,
    >)
        requires
            old(self).wf(),
            order@.no_duplicates(),
            forall|k: int| 0 <= k < order.len() ==> #[trigger] order[k] < old(self).len(),
        ensures
            final(self).wf(),
            final(self).len() == old(self).len(),
            dones@ == old(self).dones_for(order@, time),
            forall|k: int| 0 <= k < dones.len() ==> (#[trigger] dones[k]).time == time,
            forall|i: usize|
                i < old(self).len() ==> #[trigger] final(self).parent(i as int) == old(self).parent(
                    i as int,
                ) && final(self).pending(i as int) == old(self).pending(i as int)
                    && final(self).current(i as int) == if order@.contains(i) {
                    drained(old(self).current(i as int))
                } else {
                    old(self).current(i as int)
                },
    {
        let mut dones: Vec<FrameDone> = Vec::new();
        let mut k: usize = 0;
        while k < order.len()
            invariant
                self.wf(),
                old(self).wf(),
                self.len() == old(self).len(),
                k <= order.len(),
                order@.no_duplicates(),
                forall|j: int| 0 <= j < order.len() ==> #[trigger] order[j] < old(self).len(),
                dones@ == old(self).dones_for(order@.take(k as int), time),
                forall|j: int| 0 <= j < dones.len() ==> (#[trigger] dones[j]).time == time,
                forall|i: usize|
                    i < old(self).len() ==> #[trigger] self.parent(i as int) == old(self).parent(
                        i as int,
                    ) && self.pending(i as int) == old(self).pending(i as int) && self.current(
                        i as int,
                    ) == if order@.take(k as int).contains(i) {
                        drained(old(self).current(i as int))
                    } else {
                        old(self).current(i as int)
                    },
            decreases order.len() - k,
        {
            let id = order[k];
            proof {
                assert(self.parent(id as int) == old(self).parent(id as int));
                if order@.take(k as int).contains(id) {
                    let j = choose|j: int| 0 <= j < k && order@.take(k as int)[j] == id;
                    assert(order[j] == order[k as int]);
                }
            }
            let ghost pre = *self;
            let mut cbs: Vec<u64> = Vec::new();
            std::mem::swap(&mut cbs, &mut self.surfaces[id].current.frame_callbacks);
            let ghost snaps = self.snapshots@;
            self.snapshots = Ghost(snaps.update(id as int, snaps[id as int].push(self.current(id as int))));
            let ghost mid = dones@;
            let mut c: usize = 0;
            while c < cbs.len()
                invariant
                    c <= cbs.len(),
                    cbs@ == old(self).current(id as int).frame_callbacks,
                    dones@ == mid + dones_of(cbs@.take(c as int), id, time),
                    forall|j: int| 0 <= j < dones.len() ==> (#[trigger] dones[j]).time == time,
                decreases cbs.len() - c,
            {
                dones.push(FrameDone { surface: id, callback: cbs[c], time });
                proof {
                    assert(cbs@.take(c as int + 1) == cbs@.take(c as int).push(cbs@[c as int]));
                    assert(dones_of(cbs@.take(c as int + 1), id, time) == dones_of(
                        cbs@.take(c as int),
                        id,
                        time,
                    ).push(FrameDone { surface: id, callback: cbs@[c as int], time }));
                    assert(dones@ =~= mid + dones_of(cbs@.take(c as int + 1), id, time));
                }
                c = c + 1;
            }
            proof {
                assert(cbs@.take(cbs.len() as int) == cbs@);
                let t = order@.take(k as int + 1);
                assert(t.drop_last() == order@.take(k as int));
                assert(t.last() == id);
                assert(self.current(id as int) == drained(old(self).current(id as int)));
                assert forall|i: usize| i < old(self).len() implies #[trigger] self.parent(i as int)
                    == old(self).parent(i as int) && self.pending(i as int) == old(self).pending(
                    i as int,
                ) && self.current(i as int) == if t.contains(i) {
                    drained(old(self).current(i as int))
                } else {
                    old(self).current(i as int)
                } by {
                    assert(pre.parent(i as int) == old(self).parent(i as int));
                    assert(t[k as int] == id);
                    if i == id {
                        assert(t.contains(i));
                    } else {
                        assert(self.surfaces@[i as int] == pre.surfaces@[i as int]);
                        if t.contains(i) {
                            let j = choose|j: int| 0 <= j < t.len() && t[j] == i;
                            assert(order@.take(k as int)[j] == i);
                        }
                        if order@.take(k as int).contains(i) {
                            let j = choose|j: int| 0 <= j < k && order@.take(k as int)[j] == i;
                            assert(t[j] == i);
                        }
                    }
                }
                assert forall|i: int| 0 <= i < self.len() implies match #[trigger] self.parent(i) {
                    Some(p) => p < i,
                    None => true,
                } by {
                    assert(self.surfaces@[i].parent == pre.surfaces@[i].parent);
                    pre.lemma_parent_precedes(i);
                }
                assert forall|i: int| 0 <= i < self.len() implies (#[trigger] self.snapshots(i)).len()
                    >= 1 && self.snapshots(i).last() == self.current(i) by {
                    if i != id {
                        assert(self.surfaces@[i] == pre.surfaces@[i]);
                        assert(pre.snapshots(i).len() >= 1);
                    }
                }
            }
            k = k + 1;
        }
        proof {
            assert(order@.take(order.len() as int) == order@);
        }
        dones
    }
}

/// The number of frame callbacks queued on the surfaces of `order`.
pub open spec fn queued_total(tree: SurfaceTree, order: Seq<usize>) -> nat
    decreases order.len(),
{
    if order.len() == 0 {
        0
    } else {
        queued_total(tree, order.drop_last()) + tree.current(order.last() as int).frame_callbacks.len()
    }
}

impl SurfaceTree {
    /// Readers only ever see whole states: the current state of a surface is
    /// the last one that a single operation installed in full.
    pub proof fn lemma_current_is_snapshot(&self, id: int)
        requires
            self.wf(),
            0 <= id < self.len(),
        ensures
            self.snapshots(id).len() >= 1,
            self.snapshots(id).last() == self.current(id),
    {
    }

    /// A frame pass over `order` sends one notification per queued frame
    /// callback, every one of them carrying the pass's single timestamp.
    pub proof fn lemma_frame_pass_exactly_once(&self, order: Seq<usize>, time: u32)
        ensures
            self.dones_for(order, time).len() == queued_total(*self, order),
            forall|d: FrameDone| #[trigger] self.dones_for(order, time).contains(d) ==> d.time == time,
            forall|k: int, j: int|
                0 <= k < order.len() && 0 <= j < self.current(order[k] as int).frame_callbacks.len()
                    ==> self.dones_for(order, time).contains(
                    FrameDone {
                        surface: order[k],
                        callback: self.current(order[k] as int).frame_callbacks[j],
                        time,
                    },
                ),
        decreases order.len(),
    {
        if order.len() > 0 {
            let rest = order.drop_last();
            self.lemma_frame_pass_exactly_once(rest, time);
            let prev = self.dones_for(rest, time);
            let last = dones_of(self.current(order.last() as int).frame_callbacks, order.last(), time);
            let all = self.dones_for(order, time);
            assert(all == prev + last);
            assert forall|d: FrameDone| #[trigger] all.contains(d) implies d.time == time by {
                let i = choose|i: int| 0 <= i < all.len() && all[i] == d;
                if i < prev.len() {
                    assert(prev[i] == d);
                    assert(prev.contains(d));
                } else {
                    assert(last[i - prev.len()] == d);
                }
            }
            assert forall|k: int, j: int|
                0 <= k < order.len() && 0 <= j < self.current(order[k] as int).frame_callbacks.len()
                    implies all.contains(
                    FrameDone {
                        surface: order[k],
                        callback: self.current(order[k] as int).frame_callbacks[j],
                        time,
                    },
                ) by {
                let d = FrameDone {
                    surface: order[k],
                    callback: self.current(order[k] as int).frame_callbacks[j],
                    time,
                };
                if k < order.len() - 1 {
                    assert(rest[k] == order[k]);
                    let i = choose|i: int| 0 <= i < prev.len() && prev[i] == d;
                    assert(all[i] == d);
                } else {
                    assert(last[j] == d);
                    assert(all[prev.len() + j] == d);
                }
            }
        }
    }
}

impl SurfaceTree {
    /// The pre-order of the subtree under `node`: `node`, then the subtree of
    /// each of its children in order of creation.
    pub open spec fn preorder(&self, node: int) -> Seq<usize>
        decreases self.len() - node, self.len() + 1,
    {
        if 0 <= node < self.len() {
            seq![node as usize] + self.forest(node, self.len() as int)
        } else {
            Seq::empty()
        }
    }

    /// The pre-orders of the children of `node` below index `m`, one after
    /// another.
    pub open spec fn forest(&self, node: int, m: int) -> Seq<usize>
        decreases self.len() - node, m,
    {
        if m <= 0 || node < 0 || node >= self.len() || m > self.len() {
            Seq::empty()
        } else if self.parent(m - 1) == Some(node as usize) && node < m - 1 {
            self.forest(node, m - 1) + self.preorder(m - 1)
        } else {
            self.forest(node, m - 1)
        }
    }

    /// A subtree under a child of `node` lies in the subtree under `node`.
    pub proof fn lemma_subtree_of_child(&self, node: int, c: int, x: int)
        requires
            self.parent(c) == Some(node as usize),
            0 <= node < c,
            node <= usize::MAX,
            self.in_subtree(c, x),
        ensures
            self.in_subtree(node, x),
        decreases x,
    {
        if x != c {
            let p = self.parent(x).unwrap();
            self.lemma_subtree_of_child(node, c, p as int);
        } else {
            assert(self.in_subtree(node, (node as usize) as int));
        }
    }

    /// Every strict descendant of `node` lies under one of its children.
    pub proof fn lemma_child_on_path(&self, node: int, x: int) -> (c: int)
        requires
            self.wf(),
            0 <= x < self.len(),
            self.in_subtree(node, x),
            x != node,
        ensures
            self.parent(c) == Some(node as usize),
            node < c <= x,
            self.in_subtree(c, x),
        decreases x,
    {
        let p = self.parent(x).unwrap();
        if p as int == node {
            x
        } else {
            let c = self.lemma_child_on_path(node, p as int);
            c
        }
    }

    /// Two subtrees that share a surface are nested.
    pub proof fn lemma_nested(&self, a: int, b: int, x: int)
        requires
            self.in_subtree(a, x),
            self.in_subtree(b, x),
        ensures
            self.in_subtree(a, b) || self.in_subtree(b, a),
        decreases x,
    {
        if x != a && x != b {
            let p = self.parent(x).unwrap();
            self.lemma_nested(a, b, p as int);
        }
    }

    /// Membership in a pre-order and in a forest.
    pub proof fn lemma_preorder_members(&self, node: int)
        requires
            self.wf(),
        ensures
            forall|x: usize|
                #[trigger] self.preorder(node).contains(x) <==> 0 <= node < self.len() && x < self.len()
                    && self.in_subtree(node, x as int),
        decreases self.len() - node, self.len() + 1,
    {
        if 0 <= node < self.len() {
            self.lemma_forest_members(node, self.len() as int);
            let s = self.preorder(node);
            let f = self.forest(node, self.len() as int);
            assert(s == seq![node as usize] + f);
            assert forall|x: usize|
                s.contains(x) <==> x < self.len() && self.in_subtree(node, x as int) by {
                if s.contains(x) {
                    let i = choose|i: int| 0 <= i < s.len() && s[i] == x;
                    if i > 0 {
                        assert(f[i - 1] == x);
                        assert(f.contains(x));
                        let c = choose|c: int|
                            node < c < self.len() && self.parent(c) == Some(node as usize)
                                && #[trigger] self.in_subtree(c, x as int);
                        self.lemma_subtree_of_child(node, c, x as int);
                    }
                }
                if x < self.len() && self.in_subtree(node, x as int) {
                    if x as int == node {
                        assert(s[0] == x);
                    } else {
                        let c = self.lemma_child_on_path(node, x as int);
                        assert(f.contains(x));
                        let j = choose|j: int| 0 <= j < f.len() && f[j] == x;
                        assert(s[j + 1] == x);
                    }
                }
            }
        }
    }

    pub proof fn lemma_forest_members(&self, node: int, m: int)
        requires
            self.wf(),
        ensures
            forall|x: usize|
                self.forest(node, m).contains(x) <==> 0 <= node < self.len() && 0 < m <= self.len()
                    && x < self.len() && exists|c: int|
                    node < c < m && self.parent(c) == Some(node as usize)
                        && #[trigger] self.in_subtree(c, x as int),
        decreases self.len() - node, m,
    {
        if m <= 0 || node < 0 || node >= self.len() || m > self.len() {
        } else {
            self.lemma_forest_members(node, m - 1);
            let rest = self.forest(node, m - 1);
            let f = self.forest(node, m);
            if self.parent(m - 1) == Some(node as usize) && node < m - 1 {
                self.lemma_preorder_members(m - 1);
                let t = self.preorder(m - 1);
                assert(f == rest + t);
                assert forall|x: usize|
                    f.contains(x) <==> x < self.len() && exists|c: int|
                        node < c < m && self.parent(c) == Some(node as usize)
                            && #[trigger] self.in_subtree(c, x as int) by {
                    if f.contains(x) {
                        let i = choose|i: int| 0 <= i < f.len() && f[i] == x;
                        if i < rest.len() {
                            assert(rest[i] == x);
                            assert(rest.contains(x));
                        } else {
                            assert(t[i - rest.len()] == x);
                            assert(t.contains(x));
                            assert(self.in_subtree(m - 1, x as int));
                        }
                    }
                    if x < self.len() && exists|c: int|
                        node < c < m && self.parent(c) == Some(node as usize)
                            && #[trigger] self.in_subtree(c, x as int) {
                        let c = choose|c: int|
                            node < c < m && self.parent(c) == Some(node as usize)
                                && #[trigger] self.in_subtree(c, x as int);
                        if c < m - 1 {
                            assert(rest.contains(x));
                            let j = choose|j: int| 0 <= j < rest.len() && rest[j] == x;
                            assert(f[j] == x);
                        } else {
                            assert(t.contains(x));
                            let j = choose|j: int| 0 <= j < t.len() && t[j] == x;
                            assert(f[j + rest.len()] == x);
                        }
                    }
                }
            } else {
                assert(f == rest);
                assert forall|x: usize|
                    f.contains(x) <==> x < self.len() && exists|c: int|
                        node < c < m && self.parent(c) == Some(node as usize)
                            && #[trigger] self.in_subtree(c, x as int) by {
                    if x < self.len() && exists|c: int|
                        node < c < m && self.parent(c) == Some(node as usize)
                            && #[trigger] self.in_subtree(c, x as int) {
                        let c = choose|c: int|
                            node < c < m && self.parent(c) == Some(node as usize)
                                && #[trigger] self.in_subtree(c, x as int);
                        if c == m - 1 {
                        }
                    }
                }
            }
        }
    }
}

impl SurfaceTree {
    pub proof fn lemma_preorder_distinct(&self, node: int)
        requires
            self.wf(),
        ensures
            self.preorder(node).no_duplicates(),
        decreases self.len() - node, self.len() + 1,
    {
        if 0 <= node < self.len() {
            self.lemma_forest_distinct(node, self.len() as int);
            self.lemma_forest_members(node, self.len() as int);
            let f = self.forest(node, self.len() as int);
            let s = self.preorder(node);
            assert(s == seq![node as usize] + f);
            if f.contains(node as usize) {
                let c = choose|c: int|
                    node < c < self.len() && self.parent(c) == Some(node as usize)
                        && #[trigger] self.in_subtree(c, node);
                self.lemma_subtree_above_root(c, node);
            }
            assert forall|a: int, b: int| 0 <= a < b < s.len() implies s[a] != s[b] by {
                if a == 0 {
                    assert(s[b] == f[b - 1]);
                    assert(f.contains(s[b]));
                } else {
                    assert(s[a] == f[a - 1] && s[b] == f[b - 1]);
                }
            }
        }
    }

    pub proof fn lemma_forest_distinct(&self, node: int, m: int)
        requires
            self.wf(),
        ensures
            self.forest(node, m).no_duplicates(),
        decreases self.len() - node, m,
    {
        if m <= 0 || node < 0 || node >= self.len() || m > self.len() {
        } else {
            self.lemma_forest_distinct(node, m - 1);
            let rest = self.forest(node, m - 1);
            if self.parent(m - 1) == Some(node as usize) && node < m - 1 {
                self.lemma_preorder_distinct(m - 1);
                self.lemma_forest_members(node, m - 1);
                self.lemma_preorder_members(m - 1);
                let t = self.preorder(m - 1);
                let f = self.forest(node, m);
                assert(f == rest + t);
                assert forall|x: usize| rest.contains(x) implies !t.contains(x) by {
                    let c = choose|c: int|
                        node < c < m - 1 && self.parent(c) == Some(node as usize)
                            && #[trigger] self.in_subtree(c, x as int);
                    if t.contains(x) {
                        self.lemma_nested(c, m - 1, x as int);
                        if self.in_subtree(c, m - 1) {
                            assert(self.in_subtree(c, node));
                            self.lemma_subtree_above_root(c, node);
                        } else {
                            self.lemma_subtree_above_root(m - 1, c);
                        }
                    }
                }
                assert forall|a: int, b: int| 0 <= a < b < f.len() implies f[a] != f[b] by {
                    if b < rest.len() {
                        assert(f[a] == rest[a] && f[b] == rest[b]);
                    } else if a >= rest.len() {
                        assert(f[a] == t[a - rest.len()] && f[b] == t[b - rest.len()]);
                    } else {
                        assert(f[a] == rest[a] && rest.contains(f[a]));
                        assert(f[b] == t[b - rest.len()] && t.contains(f[b]));
                    }
                }
            }
        }
    }

    /// In a pre-order every surface but the first comes after its parent.
    pub proof fn lemma_preorder_parent_first(&self, node: int)
        requires
            self.wf(),
        ensures
            forall|b: int| #![trigger self.parent(self.preorder(node)[b] as int)]
                0 < b < self.preorder(node).len() ==> exists|a: int|
                    0 <= a < b && Some(#[trigger] self.preorder(node)[a]) == self.parent(
                        self.preorder(node)[b] as int,
                    ),
            0 <= node < self.len() ==> self.preorder(node)[0] == node,
        decreases self.len() - node, self.len() + 1,
    {
        if 0 <= node < self.len() {
            self.lemma_forest_parent_first(node, self.len() as int);
            let f = self.forest(node, self.len() as int);
            let s = self.preorder(node);
            assert(s == seq![node as usize] + f);
            assert forall|b: int| #![trigger self.parent(s[b] as int)] 0 < b < s.len() implies exists|a: int|
                0 <= a < b && Some(#[trigger] s[a]) == self.parent(s[b] as int) by {
                assert(s[b] == f[b - 1]);
                if self.parent(s[b] as int) == Some(node as usize) {
                    assert(s[0] == node as usize);
                } else {
                    let a = choose|a: int|
                        0 <= a < b - 1 && Some(#[trigger] f[a]) == self.parent(f[b - 1] as int);
                    assert(s[a + 1] == f[a]);
                }
            }
        }
    }

    pub proof fn lemma_forest_parent_first(&self, node: int, m: int)
        requires
            self.wf(),
        ensures
            forall|b: int| #![trigger self.parent(self.forest(node, m)[b] as int)]
                0 <= b < self.forest(node, m).len() && self.parent(self.forest(node, m)[b] as int)
                    != Some(node as usize) ==> exists|a: int|
                    0 <= a < b && Some(#[trigger] self.forest(node, m)[a]) == self.parent(
                        self.forest(node, m)[b] as int,
                    ),
        decreases self.len() - node, m,
    {
        if m <= 0 || node < 0 || node >= self.len() || m > self.len() {
        } else {
            self.lemma_forest_parent_first(node, m - 1);
            let rest = self.forest(node, m - 1);
            if self.parent(m - 1) == Some(node as usize) && node < m - 1 {
                self.lemma_preorder_parent_first(m - 1);
                let t = self.preorder(m - 1);
                let f = self.forest(node, m);
                assert(f == rest + t);
                assert forall|b: int| #![trigger self.parent(f[b] as int)]
                    0 <= b < f.len() && self.parent(f[b] as int) != Some(node as usize) implies exists|
                        a: int,
                    |
                        0 <= a < b && Some(#[trigger] f[a]) == self.parent(f[b] as int) by {
                    if b < rest.len() {
                        assert(f[b] == rest[b]);
                        let a = choose|a: int|
                            0 <= a < b && Some(#[trigger] rest[a]) == self.parent(rest[b] as int);
                        assert(f[a] == rest[a]);
                    } else {
                        let j = b - rest.len();
                        assert(f[b] == t[j]);
                        if j == 0 {
                            assert(t[0] == (m - 1) as usize);
                        } else {
                            let a = choose|a: int|
                                0 <= a < j && Some(#[trigger] t[a]) == self.parent(t[j] as int);
                            assert(f[a + rest.len()] == t[a]);
                        }
                    }
                }
            }
        }
    }

    /// Appends the pre-order of the subtree under `node` to `out`.
    fn walk(&self, node: usize, out: &mut Vec<usize>)
        requires
            self.wf(),
            node < self.len(),
        ensures
            final(out)@ == old(out)@ + self.preorder(node as int),
        decreases self.len() - node,
    {
        let ghost start = out@;
        out.push(node);
        let n = self.surfaces.len();
        let mut m: usize = 0;
        while m < n
            invariant
                self.wf(),
                n == self.len(),
                node < n,
                m <= n,
                out@ == start + seq![node] + self.forest(node as int, m as int),
            decreases n - m,
        {
            proof { self.lemma_parent_precedes(m as int); }
            let is_child = match self.surfaces[m].parent {
                Some(p) => p == node,
                None => false,
            };
            if is_child && node < m {
                self.walk(m, out);
                proof {
                    assert(self.forest(node as int, m + 1) == self.forest(node as int, m as int)
                        + self.preorder(m as int));
                }
            } else {
                proof {
                    assert(self.forest(node as int, m + 1) == self.forest(node as int, m as int));
                }
            }
            m = m + 1;
        }
        proof {
            assert(self.preorder(node as int) == seq![node] + self.forest(node as int, n as int));
            assert(out@ =~= start + self.preorder(node as int));
        }
    }
}

} // verus!
