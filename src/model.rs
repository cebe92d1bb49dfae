use vstd::prelude::*;

use crate::object::{ConcreteObject, Relation};
use crate::system::SystemId;

verus! {

/// What a frame holds: the object at an index of the arena's object store, or
/// a nested system.
#[derive(Clone, Copy, Debug, PartialEq, Eq, Structural)]
pub enum Content {
    Other(usize),
    System(usize),
}

/// The mathematical state of one frame.
pub struct FrameView {
    pub parent: int,
    pub name: Seq<char>,
    pub content: Option<Content>,
    pub scheduled: bool,
    pub running: bool,
}

/// A link endpoint: a frame itself, or a frame found by name below the
/// system that a given frame holds.
pub enum EndView {
    Direct(int),
    Symbolic(int, Seq<char>),
}

/// A directed relation from endpoint `a` to endpoint `b`.
pub struct LinkView {
    pub relation: Relation,
    pub a: EndView,
    pub b: EndView,
}

/// The mathematical state of one system: the frame that holds it, its own
/// frames in order, and its links in order.
pub struct SysView {
    pub frame: Option<int>,
    pub frames: Seq<int>,
    pub links: Seq<LinkView>,
}

/// The whole arena: every frame, every system (index 0 is the root), and the
/// number of objects stored.
pub struct SystemView {
    pub frames: Seq<FrameView>,
    pub systems: Seq<SysView>,
    pub n_objects: nat,
}

impl EndView {
    /// The frame an endpoint starts from: the frame itself, or the holder of
    /// the system searched by name.
    pub open spec fn anchor(self) -> int {
        match self {
            EndView::Direct(f) => f,
            EndView::Symbolic(f, _) => f,
        }
    }
}

impl SystemView {
    pub open spec fn has_frame(self, f: int) -> bool {
        0 <= f < self.frames.len()
    }

    pub open spec fn has_system(self, s: int) -> bool {
        0 <= s < self.systems.len()
    }

    /// Frame `f` sits in a system of the arena, and what it holds is there:
    /// a stored object, or a nested system that knows `f` as its holder.
    pub open spec fn frame_wf(self, f: int) -> bool {
        let fr = self.frames[f];
        &&& self.has_system(fr.parent)
        &&& match fr.content {
            Some(Content::Other(k)) => k < self.n_objects,
            Some(Content::System(s)) => 0 < s < self.systems.len() && self.systems[s as int].frame
                == Some(f),
            None => true,
        }
    }

    /// Both endpoints of `l` start from frames of the arena.
    pub open spec fn link_wf(self, l: LinkView) -> bool {
        self.has_frame(l.a.anchor()) && self.has_frame(l.b.anchor())
    }

    /// Names of the frames that a system owns directly are pairwise distinct.
    pub open spec fn names_distinct(self, s: int) -> bool {
        let fs = self.systems[s].frames;
        forall|i: int, j: int|
            0 <= i < fs.len() && 0 <= j < fs.len() && i != j ==> #[trigger] self.frames[fs[i]].name
                != #[trigger] self.frames[fs[j]].name
    }

    /// System `s` agrees with its holder, owns frames that name it as their
    /// parent, links frames of the arena, and names its frames apart.
    pub open spec fn system_wf(self, s: int) -> bool {
        let sy = self.systems[s];
        &&& match sy.frame {
            Some(f) => self.has_frame(f) && holds_system(self.frames[f].content, s),
            None => true,
        }
        &&& forall|j: int|
            0 <= j < sy.frames.len() ==> self.has_frame(#[trigger] sy.frames[j])
                && self.frames[sy.frames[j]].parent == s
        &&& forall|j: int| 0 <= j < sy.links.len() ==> self.link_wf(#[trigger] sy.links[j])
        &&& self.names_distinct(s)
    }

    /// The system that holds the frame holding system `s`, if any.
    pub open spec fn up(self, s: int) -> Option<int> {
        match self.systems[s].frame {
            Some(f) => Some(self.frames[f].parent),
            None => None,
        }
    }

    /// System `t` is `s`, or lies inside `s` at most `fuel` levels down.
    pub open spec fn sys_within(self, t: int, s: int, fuel: nat) -> bool
        decreases fuel,
    {
        t == s || (fuel > 0 && match self.up(t) {
            Some(u) => self.sys_within(u, s, (fuel - 1) as nat),
            None => false,
        })
    }

    /// Frame `f` lies (transitively) inside system `s`.
    pub open spec fn contains(self, s: int, f: int) -> bool {
        self.sys_within(self.frames[f].parent, s, self.systems.len())
    }

    /// The frames of the system that frame `f` holds; none for any other
    /// content.
    pub open spec fn children(self, f: int) -> Seq<int> {
        match self.frames[f].content {
            Some(Content::System(s)) => self.systems[s as int].frames,
            _ => Seq::empty(),
        }
    }

    /// The frames one level below a level of frames, in order.
    pub open spec fn next_level(self, lvl: Seq<int>) -> Seq<int>
        decreases lvl.len(),
    {
        if lvl.len() == 0 {
            Seq::empty()
        } else {
            self.next_level(lvl.drop_last()) + self.children(lvl.last())
        }
    }

    /// A level of frames and `fuel - 1` levels below it, breadth first.
    pub open spec fn below(self, lvl: Seq<int>, fuel: nat) -> Seq<int>
        decreases fuel,
    {
        if fuel == 0 {
            Seq::empty()
        } else {
            lvl + self.below(self.next_level(lvl), (fuel - 1) as nat)
        }
    }

    /// Every frame below system `s`, breadth first.
    pub open spec fn descendants(self, s: int) -> Seq<int> {
        self.below(self.systems[s].frames, self.systems.len())
    }

    /// The first frame of `fs` named `name`.
    pub open spec fn first_named(self, fs: Seq<int>, name: Seq<char>) -> Option<int>
        decreases fs.len(),
    {
        if fs.len() == 0 {
            None
        } else if self.frames[fs[0]].name == name {
            Some(fs[0])
        } else {
            self.first_named(fs.drop_first(), name)
        }
    }

    /// The frame that a breadth-first search below system `s` finds by name.
    pub open spec fn find(self, s: int, name: Seq<char>) -> Option<int> {
        self.first_named(self.descendants(s), name)
    }

    /// The frame found by name below the system that frame `f` holds.
    pub open spec fn find_from(self, f: int, name: Seq<char>) -> Option<int> {
        match self.frames[f].content {
            Some(Content::System(s)) => self.find(s as int, name),
            _ => None,
        }
    }

    /// Some frame below system `s` is called `name`.
    pub open spec fn taken(self, s: int, name: Seq<char>) -> bool {
        self.find(s, name) is Some
    }

    /// `name` is what a new frame of system `s` is called when its object is
    /// labelled `base`: `base` itself when free below `s`, else `base`
    /// followed by the smallest number from 2 on that makes it free.
    pub open spec fn fresh_name(self, s: int, base: Seq<char>, name: Seq<char>) -> bool {
        if !self.taken(s, base) {
            name == base
        } else {
            exists|k: nat|
                2 <= k && name == base + decimal(k) && !self.taken(s, name) && forall|j: nat|
                    2 <= j < k ==> #[trigger] self.taken(s, base + decimal(j))
        }
    }

    /// System `t` can be taken by a frame of system `s`: it is a nested
    /// system held by no frame, and `s` does not lie inside it.
    pub open spec fn adoptable(self, t: int, s: int) -> bool {
        &&& 0 < t < self.systems.len()
        &&& self.systems[t].frame is None
        &&& !self.sys_within(s, t, self.systems.len())
    }

    /// `c` may be put into a frame of system `s`.
    pub open spec fn content_ok(self, c: Option<Content>, s: int) -> bool {
        match c {
            Some(Content::Other(k)) => k < self.n_objects,
            Some(Content::System(t)) => self.adoptable(t as int, s),
            None => true,
        }
    }

    /// The arena with one more frame, appended to system `s`, holding `c`
    /// and called `name`.
    pub open spec fn with_frame(self, s: int, c: Option<Content>, name: Seq<char>) -> SystemView {
        let f = self.frames.len() as int;
        let sy = self.systems[s];
        let systems1 = self.systems.update(
            s,
            SysView { frame: sy.frame, frames: sy.frames.push(f), links: sy.links },
        );
        SystemView {
            frames: self.frames.push(
                FrameView { parent: s, name, content: c, scheduled: false, running: false },
            ),
            systems: match c {
                Some(Content::System(t)) => systems1.update(
                    t as int,
                    SysView {
                        frame: Some(f),
                        frames: systems1[t as int].frames,
                        links: systems1[t as int].links,
                    },
                ),
                _ => systems1,
            },
            n_objects: self.n_objects,
        }
    }

    /// The arena with frame `f` holding `c` in place of what it held; a
    /// system it held before is left detached.
    pub open spec fn with_content(self, f: int, c: Option<Content>) -> SystemView {
        let fr = self.frames[f];
        let systems1 = match fr.content {
            Some(Content::System(t0)) => self.systems.update(
                t0 as int,
                SysView {
                    frame: None,
                    frames: self.systems[t0 as int].frames,
                    links: self.systems[t0 as int].links,
                },
            ),
            _ => self.systems,
        };
        SystemView {
            frames: self.frames.update(
                f,
                FrameView {
                    parent: fr.parent,
                    name: fr.name,
                    content: c,
                    scheduled: fr.scheduled,
                    running: fr.running,
                },
            ),
            systems: match c {
                Some(Content::System(t)) => systems1.update(
                    t as int,
                    SysView {
                        frame: Some(f),
                        frames: systems1[t as int].frames,
                        links: systems1[t as int].links,
                    },
                ),
                _ => systems1,
            },
            n_objects: self.n_objects,
        }
    }

    /// The arena with one more object stored.
    pub open spec fn with_object(self) -> SystemView {
        SystemView { frames: self.frames, systems: self.systems, n_objects: self.n_objects + 1 }
    }

    /// The arena with link `l` appended to system `s`.
    pub open spec fn with_link(self, s: int, l: LinkView) -> SystemView {
        let sy = self.systems[s];
        SystemView {
            frames: self.frames,
            systems: self.systems.update(
                s,
                SysView { frame: sy.frame, frames: sy.frames, links: sy.links.push(l) },
            ),
            n_objects: self.n_objects,
        }
    }

    /// The arena's tree is the same in `self` and `w`: only links and flags
    /// may differ.
    pub open spec fn same_shape(self, w: SystemView) -> bool {
        &&& self.frames.len() == w.frames.len()
        &&& forall|f: int|
            0 <= f < self.frames.len() ==> (#[trigger] self.frames[f]).parent == w.frames[f].parent
                && self.frames[f].name == w.frames[f].name && self.frames[f].content == w.frames[f].content
        &&& self.n_objects == w.n_objects
        &&& self.systems.len() == w.systems.len()
        &&& forall|s: int|
            0 <= s < self.systems.len() ==> (#[trigger] self.systems[s]).frame == w.systems[s].frame
                && self.systems[s].frames == w.systems[s].frames
    }

    /// Cutting endpoint `e` before system `s` moves: an endpoint standing for
    /// a frame inside `s` becomes a reference, by that frame's name, below
    /// the frame that holds `s`.
    pub open spec fn cut_end(self, s: int, e: EndView) -> EndView {
        match self.resolve(e) {
            Some(t) => if self.contains(s, t) {
                EndView::Symbolic(self.systems[s].frame.unwrap(), self.frames[t].name)
            } else {
                e
            },
            None => e,
        }
    }

    pub open spec fn cut_link(self, s: int, l: LinkView) -> LinkView {
        LinkView { relation: l.relation, a: self.cut_end(s, l.a), b: self.cut_end(s, l.b) }
    }

    /// Healing endpoint `e` after system `s` moved in: a reference by name
    /// below the frame that now holds `s` is found again, if it can be.
    pub open spec fn heal_end(self, s: int, e: EndView) -> EndView {
        match e {
            EndView::Symbolic(f, name) => if self.systems[s].frame == Some(f) {
                match self.find(s, name) {
                    Some(t) => EndView::Direct(t),
                    None => e,
                }
            } else {
                e
            },
            EndView::Direct(_) => e,
        }
    }

    pub open spec fn heal_link(self, s: int, l: LinkView) -> LinkView {
        LinkView { relation: l.relation, a: self.heal_end(s, l.a), b: self.heal_end(s, l.b) }
    }

    /// `self` with the links of system `p` rewritten by cutting (`heal`
    /// false) or healing (`heal` true) for system `s`, as `shape` decides.
    pub open spec fn rewrite_at(self, shape: SystemView, s: int, p: int, heal: bool) -> SystemView {
        let sy = self.systems[p];
        SystemView {
            frames: self.frames,
            systems: self.systems.update(
                p,
                SysView {
                    frame: sy.frame,
                    frames: sy.frames,
                    links: sy.links.map_values(
                        |l: LinkView|
                            if heal {
                                shape.heal_link(s, l)
                            } else {
                                shape.cut_link(s, l)
                            },
                    ),
                },
            ),
            n_objects: self.n_objects,
        }
    }

    /// Rewrites the links of system `p` and of each system above it, up to
    /// `fuel` more levels.
    pub open spec fn rewrite_from(self, shape: SystemView, s: int, p: int, heal: bool, fuel: nat) -> SystemView
        decreases fuel,
    {
        let w = self.rewrite_at(shape, s, p, heal);
        if fuel > 0 && shape.systems[p].frame is Some {
            w.rewrite_from(shape, s, shape.frames[shape.systems[p].frame.unwrap()].parent, heal, (fuel - 1) as nat)
        } else {
            w
        }
    }

    /// The links of every system above system `s` rewritten for `s`.
    pub open spec fn rewrite_above(self, s: int, heal: bool) -> SystemView {
        self.rewrite_from(self, s, self.up(s).unwrap(), heal, self.systems.len())
    }

    /// Before a swap: cut the links above whatever system frame `f` holds.
    pub open spec fn cut_for(self, f: int) -> SystemView {
        match self.frames[f].content {
            Some(Content::System(t)) => self.rewrite_above(t as int, false),
            _ => self,
        }
    }

    /// After a swap: heal the links above whatever system frame `f` holds.
    pub open spec fn heal_for(self, f: int) -> SystemView {
        match self.frames[f].content {
            Some(Content::System(t)) => self.rewrite_above(t as int, true),
            _ => self,
        }
    }

    /// A nested system held by frame `f` learns that `f` holds it.
    pub open spec fn claim(self, f: int) -> SystemView {
        match self.frames[f].content {
            Some(Content::System(t)) => SystemView {
                frames: self.frames,
                systems: self.systems.update(
                    t as int,
                    SysView {
                        frame: Some(f),
                        frames: self.systems[t as int].frames,
                        links: self.systems[t as int].links,
                    },
                ),
                n_objects: self.n_objects,
            },
            _ => self,
        }
    }

    /// The contents of frames `a` and `b` exchanged; names, flags and
    /// places stay.
    pub open spec fn exchange(self, a: int, b: int) -> SystemView {
        let fa = self.frames[a];
        let fb = self.frames[b];
        let frames1 = self.frames.update(
            a,
            FrameView {
                parent: fa.parent,
                name: fa.name,
                content: fb.content,
                scheduled: fa.scheduled,
                running: fa.running,
            },
        );
        let frames2 = frames1.update(
            b,
            FrameView {
                parent: fb.parent,
                name: fb.name,
                content: fa.content,
                scheduled: fb.scheduled,
                running: fb.running,
            },
        );
        SystemView { frames: frames2, systems: self.systems, n_objects: self.n_objects }.claim(a).claim(b)
    }

    /// Endpoint `e` is a frame itself, outside whatever system frame `f`
    /// holds.
    pub open spec fn end_avoids(self, f: int, e: EndView) -> bool {
        &&& e is Direct
        &&& match self.frames[f].content {
            Some(Content::System(t)) => !self.contains(t as int, e.anchor()),
            _ => true,
        }
    }

    /// Every link endpoint of the arena is a frame itself, outside whatever
    /// system frame `f` holds.
    pub open spec fn links_avoid(self, f: int) -> bool {
        forall|p: int, j: int|
            0 <= p < self.systems.len() && 0 <= j < self.systems[p].links.len() ==> self.end_avoids(
                f,
                (#[trigger] self.systems[p].links[j]).a,
            ) && self.end_avoids(f, self.systems[p].links[j].b)
    }

    /// The arena after `swap(a, b)`: cut, exchange, heal.
    pub open spec fn swapped(self, a: int, b: int) -> SystemView {
        self.cut_for(a).cut_for(b).exchange(a, b).heal_for(a).heal_for(b)
    }

    /// The arena with frame `f`'s flags set.
    pub open spec fn with_flags(self, f: int, scheduled: bool, running: bool) -> SystemView {
        let fr = self.frames[f];
        SystemView {
            frames: self.frames.update(
                f,
                FrameView { parent: fr.parent, name: fr.name, content: fr.content, scheduled, running },
            ),
            systems: self.systems,
            n_objects: self.n_objects,
        }
    }

    /// The frame endpoint `e` stands for now, if any.
    pub open spec fn resolve(self, e: EndView) -> Option<int> {
        match e {
            EndView::Direct(t) => Some(t),
            EndView::Symbolic(g, name) => self.find_from(g, name),
        }
    }

    /// The frames that the `Then` links among `links` whose source end stands
    /// for frame `f` point to, in link order (a target end that cannot be
    /// found contributes nothing; `targets_resolve` rules that out).
    pub open spec fn then_targets(self, links: Seq<LinkView>, f: int) -> Seq<int>
        decreases links.len(),
    {
        if links.len() == 0 {
            Seq::empty()
        } else {
            let l = links.last();
            let rest = self.then_targets(links.drop_last(), f);
            if l.relation == Relation::Then && self.resolve(l.a) == Some(f) && self.resolve(l.b) is Some {
                rest.push(self.resolve(l.b).unwrap())
            } else {
                rest
            }
        }
    }

    /// The successors of frame `f` wired in system `p` and in up to `fuel`
    /// systems above it, innermost first.
    pub open spec fn fired_from(self, p: int, f: int, fuel: nat) -> Seq<int>
        decreases fuel,
    {
        let here = self.then_targets(self.systems[p].links, f);
        if fuel > 0 && self.systems[p].frame is Some {
            here + self.fired_from(self.frames[self.systems[p].frame.unwrap()].parent, f, (fuel - 1) as nat)
        } else {
            here
        }
    }

    /// Every `Then` link whose source end stands for a frame has a target
    /// end that stands for one too: no completion can reach a target that
    /// is not there.
    pub open spec fn targets_resolve(self) -> bool {
        forall|p: int, j: int|
            0 <= p < self.systems.len() && 0 <= j < self.systems[p].links.len() && (#[trigger] self.systems[p].links[j]).relation
                == Relation::Then && self.resolve(self.systems[p].links[j].a) is Some ==> self.resolve(
                self.systems[p].links[j].b,
            ) is Some
    }

    /// The frames that the completion of frame `f` schedules, in order.
    pub open spec fn fired(self, f: int) -> Seq<int> {
        self.fired_from(self.frames[f].parent, f, self.systems.len())
    }

    /// The arena is well formed: it has a root held by no frame, and every
    /// frame and every system is well formed.
    pub open spec fn wf(self) -> bool {
        &&& self.systems.len() > 0
        &&& self.systems[0].frame is None
        &&& forall|f: int| 0 <= f < self.frames.len() ==> #[trigger] self.frame_wf(f)
        &&& forall|s: int| 0 <= s < self.systems.len() ==> #[trigger] self.system_wf(s)
    }
}

/// Content `c` is the nested system `s`.
pub open spec fn holds_system(c: Option<Content>, s: int) -> bool {
    c matches Some(Content::System(t)) && t as int == s
}

/// The decimal digit character for `d` in `0..10`.
pub open spec fn digit_char(d: int) -> char {
    if d == 0 {
        '0'
    } else if d == 1 {
        '1'
    } else if d == 2 {
        '2'
    } else if d == 3 {
        '3'
    } else if d == 4 {
        '4'
    } else if d == 5 {
        '5'
    } else if d == 6 {
        '6'
    } else if d == 7 {
        '7'
    } else if d == 8 {
        '8'
    } else {
        '9'
    }
}

/// The decimal digits of `n`, most significant first.
pub open spec fn decimal(n: nat) -> Seq<char>
    decreases n,
{
    if n < 10 {
        seq![digit_char(n as int)]
    } else {
        decimal(n / 10).push(digit_char((n % 10) as int))
    }
}

/// A sequence of indices as integers.
pub open spec fn ints(v: Seq<usize>) -> Seq<int> {
    v.map_values(|x: usize| x as int)
}

/// What a frame holds once given `object`, when the arena stores `n`
/// objects before the call: the next object slot, the nested system, or
/// nothing.
pub open spec fn held<O>(n: nat, object: Option<ConcreteObject<O>>) -> Option<Content> {
    match object {
        None => None,
        Some(ConcreteObject::Other(_)) => Some(Content::Other(n as usize)),
        Some(ConcreteObject::System(t)) => Some(Content::System(t.index)),
    }
}

/// The arena as it stands after storing `object`, before a frame takes it.
pub open spec fn stored<O>(v: SystemView, object: Option<ConcreteObject<O>>) -> SystemView {
    match object {
        Some(ConcreteObject::Other(_)) => v.with_object(),
        _ => v,
    }
}

/// The label a frame is named after when it holds no object of the
/// embedding program.
pub open spec fn fixed_label<O>(object: Option<ConcreteObject<O>>) -> Seq<char> {
    match object {
        Some(ConcreteObject::System(_)) => seq!['S', 'y', 's', 't', 'e', 'm'],
        _ => seq!['F', 'r', 'a', 'm', 'e'],
    }
}

/// The content `object` may be given to a frame of system `s`.
pub open spec fn object_ok<O>(v: SystemView, object: Option<ConcreteObject<O>>, s: int) -> bool {
    match object {
        Some(ConcreteObject::System(t)) => v.adoptable(t.index as int, s),
        Some(ConcreteObject::Other(_)) => v.n_objects < usize::MAX,
        None => true,
    }
}

} // verus!
