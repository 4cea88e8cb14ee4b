//! Toplevel windows and their initial configure handshake.
use vstd::prelude::*;

verus! {

/// Where a toplevel stands in its handshake.
#[derive(Clone, Copy, Debug, PartialEq, Eq, Structural)]
pub enum ToplevelState {
    Created,
    ConfigurePending,
    Activated,
}

/// A window made of a root surface.
#[derive(Clone, Copy, Debug, PartialEq, Eq, Structural)]
pub struct Toplevel {
    pub surface: usize,
    pub state: ToplevelState,
    /// The activated flag of the window's pending configure state.
    pub activated: bool,
    /// How many configure notifications the window has been sent.
    pub configures_sent: u32,
}

/// A toplevel just made for `surface`: activated, and configured once.
pub open spec fn configured_toplevel(surface: usize) -> Toplevel {
    Toplevel {
        surface,
        state: ToplevelState::ConfigurePending,
        activated: true,
        configures_sent: 1,
    }
}

/// What a commit on `surface` does to toplevel `t`.
pub open spec fn on_commit_spec(t: Toplevel, surface: usize) -> Toplevel {
    if t.surface == surface && t.state == ToplevelState::ConfigurePending {
        Toplevel { state: ToplevelState::Activated, ..t }
    } else {
        t
    }
}

pub open spec fn surfaces_of(ts: Seq<Toplevel>) -> Seq<usize> {
    ts.map_values(|t: Toplevel| t.surface)
}

/// The toplevels, in order of creation.
pub struct Shell {
    toplevels: Vec<Toplevel>,
}

impl Shell {
    pub closed spec fn view(&self) -> Seq<Toplevel> {
        self.toplevels@
    }

    /// No two toplevels share a surface.
    pub open spec fn wf(&self) -> bool {
        surfaces_of(self.view()).no_duplicates()
    }

    pub open spec fn has_surface(&self, surface: usize) -> bool {
        exists|i: int| 0 <= i < self.view().len() && #[trigger] self.view()[i].surface == surface
    }

    pub fn new() -> (s: Shell)
        ensures
            s.wf(),
            s.view() == Seq::<Toplevel>::empty(),
    {
        Shell { toplevels: Vec::new() }
    }

    pub fn len(&self) -> (n: usize)
        ensures
            n == self.view().len(),
    {
        self.toplevels.len()
    }

    pub fn get(&self, i: usize) -> (t: Toplevel)
        requires
            i < self.view().len(),
        ensures
            t == self.view()[i as int],
    {
        self.toplevels[i]
    }

    /// The toplevel made for `surface`, if there is one.
    pub fn find(&self, surface: usize) -> (r: Option<usize>)
        ensures
            match r {
                Some(i) => i < self.view().len() && self.view()[i as int].surface == surface,
                None => !self.has_surface(surface),
            },
    {
        let mut i: usize = 0;
        while i < self.toplevels.len()
            invariant
                i <= self.view().len(),
                forall|j: int| 0 <= j < i ==> self.view()[j].surface != surface,
            decreases self.view().len() - i,
        {
            if self.toplevels[i].surface == surface {
                return Some(i);
            }
            i = i + 1;
        }
        None
    }

    /// Makes `surface` a toplevel: its pending state is marked activated and
    /// one configure is sent at once. Returns `None`, changing nothing, when
    /// `surface` is a toplevel already.
    pub fn new_toplevel(&mut self, surface: usize) -> (r: Option<Toplevel>)
        requires
            old(self).wf(),
        ensures
            final(self).wf(),
            r.is_some() <==> !old(self).has_surface(surface),
            r.is_some() ==> r == Some(configured_toplevel(surface)) && final(self).view() == old(
                self,
            ).view().push(configured_toplevel(surface)),
            r.is_none() ==> final(self).view() == old(self).view(),
    {
        if self.find(surface).is_some() {
            return None;
        }
        let created = Toplevel {
            surface,
            state: ToplevelState::Created,
            activated: false,
            configures_sent: 0,
        };
        let t = Toplevel {
            state: ToplevelState::ConfigurePending,
            activated: true,
            configures_sent: created.configures_sent + 1,
            ..created
        };
        let ghost before = self.view();
        self.toplevels.push(t);
        proof {
            let s = surfaces_of(self.view());
            assert(s == surfaces_of(before).push(surface));
            assert forall|a: int, b: int| 0 <= a < b < s.len() implies s[a] != s[b] by {
                if b == s.len() - 1 {
                    assert(before[a].surface == s[a]);
                }
            }
        }
        Some(t)
    }

    /// A commit on `surface` completes the handshake of its toplevel.
    pub fn on_commit(&mut self, surface: usize)
        requires
            old(self).wf(),
        ensures
            final(self).wf(),
            final(self).view() == old(self).view().map_values(
                |t: Toplevel| on_commit_spec(t, surface),
            ),
    {
        let ghost before = self.view();
        let mut i: usize = 0;
        while i < self.toplevels.len()
            invariant
                i <= self.view().len(),
                self.view().len() == before.len(),
                forall|j: int| 0 <= j < i ==> self.view()[j] == on_commit_spec(before[j], surface),
                forall|j: int| i <= j < before.len() ==> self.view()[j] == before[j],
            decreases self.view().len() - i,
        {
            let t = self.toplevels[i];
            if t.surface == surface && t.state == ToplevelState::ConfigurePending {
                self.toplevels.set(i, Toplevel { state: ToplevelState::Activated, ..t });
            }
            i = i + 1;
        }
        proof {
            assert(self.view() =~= before.map_values(|t: Toplevel| on_commit_spec(t, surface)));
            assert(surfaces_of(self.view()) =~= surfaces_of(before));
        }
    }

    /// The surface of the first toplevel in order of creation.
    pub fn first_surface(&self) -> (r: Option<usize>)
        ensures
            r == if self.view().len() > 0 {
                Some(self.view()[0].surface)
            } else {
                None::<usize>
            },
    {
        if self.toplevels.len() > 0 {
            Some(self.toplevels[0].surface)
        } else {
            None
        }
    }

    /// The surfaces of all toplevels, in order of creation.
    pub fn surfaces(&self) -> (r: Vec<usize>)
        ensures
            r@ == surfaces_of(self.view()),
    {
        let mut r: Vec<usize> = Vec::new();
        let mut i: usize = 0;
        while i < self.toplevels.len()
            invariant
                i <= self.view().len(),
                r@ == surfaces_of(self.view().take(i as int)),
            decreases self.view().len() - i,
        {
            r.push(self.toplevels[i].surface);
            proof {
                assert(self.view().take(i as int + 1) == self.view().take(i as int).push(
                    self.view()[i as int],
                ));
            }
            i = i + 1;
        }
        proof {
            assert(self.view().take(i as int) == self.view());
        }
        r
    }
}

/// The toplevel `t` after commits on the surfaces of `commits`, in order.
pub open spec fn after_commits(t: Toplevel, commits: Seq<usize>) -> Toplevel
    decreases commits.len(),
{
    if commits.len() == 0 {
        t
    } else {
        on_commit_spec(after_commits(t, commits.drop_last()), commits.last())
    }
}

/// A new toplevel has been sent exactly one configure, and no sequence of
/// commits sends another; once its own surface has been committed it is
/// activated.
pub proof fn lemma_one_configure_before_commit(surface: usize, commits: Seq<usize>)
    ensures
        configured_toplevel(surface).configures_sent == 1,
        after_commits(configured_toplevel(surface), commits).configures_sent == 1,
        after_commits(configured_toplevel(surface), commits).surface == surface,
        commits.contains(surface) ==> after_commits(configured_toplevel(surface), commits).state
            == ToplevelState::Activated,
        !commits.contains(surface) ==> after_commits(configured_toplevel(surface), commits).state
            == ToplevelState::ConfigurePending,
    decreases commits.len(),
{
    if commits.len() > 0 {
        let rest = commits.drop_last();
        lemma_one_configure_before_commit(surface, rest);
        if commits.contains(surface) && !rest.contains(surface) {
            let i = choose|i: int| 0 <= i < commits.len() && commits[i] == surface;
            if i < rest.len() {
                assert(rest[i] == surface);
            }
        }
        if rest.contains(surface) {
            let i = choose|i: int| 0 <= i < rest.len() && rest[i] == surface;
            assert(commits[i] == surface);
        }
        if commits.last() == surface {
            assert(commits[commits.len() - 1] == surface);
        }
    }
}

} // verus!
