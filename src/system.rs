use vstd::prelude::*;
use vstd::string::*;

use crate::model::{
    decimal, digit_char, fixed_label, held, ints, object_ok, stored, Content, EndView, FrameView, LinkView,
    SysView, SystemView,
};
use crate::model_lemmas::{
    lemma_exchange_wf, lemma_first_named_append, lemma_first_named_skip, lemma_flags_wf,
    lemma_ints_push, lemma_resolve_valid, lemma_set_link_wf, lemma_shape_contains, lemma_shape_find,
    lemma_shape_resolve, lemma_shape_sym,
    lemma_some_suffix_free, lemma_with_content_wf, lemma_with_frame_wf, lemma_with_link_wf,
};
use crate::object::{ConcreteObject, Object, Relation};
use crate::task_loop::RunContext;

verus! {

/// A handle on one frame of a `System`'s arena.
#[derive(Clone, Copy, Debug, PartialEq, Eq, Structural)]
pub struct Frame {
    pub index: usize,
}

/// A handle on one system (the root or a nested one) of a `System`'s arena.
#[derive(Clone, Copy, Debug, PartialEq, Eq, Structural)]
pub struct SystemId {
    pub index: usize,
}


pub(crate) struct FrameRec {
    pub(crate) parent: usize,
    pub(crate) name: String,
    pub(crate) content: Option<Content>,
    pub(crate) scheduled: bool,
    pub(crate) running: bool,
}

pub(crate) enum LinkEnd {
    Direct(usize),
    Symbolic(usize, String),
}

pub(crate) struct Link {
    pub(crate) relation: Relation,
    pub(crate) a: LinkEnd,
    pub(crate) b: LinkEnd,
}

pub(crate) struct SysRec {
    pub(crate) frame: Option<usize>,
    pub(crate) frames: Vec<usize>,
    pub(crate) links: Vec<Link>,
}

/// The root system together with the arena that stores every frame, every
/// nested system and every object below it.
pub struct System<O> {
    pub(crate) frames: Vec<FrameRec>,
    pub(crate) systems: Vec<SysRec>,
    pub(crate) objects: Vec<O>,
}

impl FrameRec {
    pub(crate) open spec fn view(&self) -> FrameView {
        FrameView {
            parent: self.parent as int,
            name: self.name@,
            content: self.content,
            scheduled: self.scheduled,
            running: self.running,
        }
    }
}

impl LinkEnd {
    pub(crate) open spec fn view(&self) -> EndView {
        match self {
            LinkEnd::Direct(f) => EndView::Direct(*f as int),
            LinkEnd::Symbolic(f, n) => EndView::Symbolic(*f as int, n@),
        }
    }
}

impl Link {
    pub(crate) open spec fn view(&self) -> LinkView {
        LinkView { relation: self.relation, a: self.a.view(), b: self.b.view() }
    }
}

impl SysRec {
    pub(crate) open spec fn view(&self) -> SysView {
        SysView {
            frame: match self.frame {
                Some(f) => Some(f as int),
                None => None,
            },
            frames: self.frames@.map_values(|f: usize| f as int),
            links: self.links@.map_values(|l: Link| l.view()),
        }
    }
}

impl<O> View for System<O> {
    type V = SystemView;

    closed spec fn view(&self) -> SystemView {
        SystemView {
            frames: self.frames@.map_values(|f: FrameRec| f.view()),
            systems: self.systems@.map_values(|s: SysRec| s.view()),
            n_objects: self.objects@.len(),
        }
    }
}


/// The digit character for `d` in `0..10`, as a string.
fn digit_str(d: u64) -> (r: &'static str)
    requires
        d < 10,
    ensures
        r@ == seq![digit_char(d as int)],
{
    proof {
        reveal_strlit("0");
        reveal_strlit("1");
        reveal_strlit("2");
        reveal_strlit("3");
        reveal_strlit("4");
        reveal_strlit("5");
        reveal_strlit("6");
        reveal_strlit("7");
        reveal_strlit("8");
        reveal_strlit("9");
    }
    if d == 0 {
        "0"
    } else if d == 1 {
        "1"
    } else if d == 2 {
        "2"
    } else if d == 3 {
        "3"
    } else if d == 4 {
        "4"
    } else if d == 5 {
        "5"
    } else if d == 6 {
        "6"
    } else if d == 7 {
        "7"
    } else if d == 8 {
        "8"
    } else {
        "9"
    }
}

/// The decimal digits of `n`, most significant first.
fn decimal_string(n: u64) -> (r: String)
    ensures
        r@ == decimal(n as nat),
    decreases n,
{
    if n < 10 {
        String::from_str(digit_str(n))
    } else {
        let head = decimal_string(n / 10);
        let r = head.concat(digit_str(n % 10));
        assert(r@ =~= decimal(n as nat));
        r
    }
}

impl<O> System<O> {
    /// Frame `f` lies (transitively) inside system `s`.
    pub(crate) fn contains(&self, s: usize, f: usize) -> (r: bool)
        requires
            self@.wf(),
            self@.has_system(s as int),
            self@.has_frame(f as int),
        ensures
            r == self@.contains(s as int, f as int),
    {
        let mut t = self.frames[f].parent;
        let mut fuel = self.systems.len();
        assert(self@.frame_wf(f as int));
        loop
            invariant
                self@.wf(),
                self@.has_system(t as int),
                self@.contains(s as int, f as int) == self@.sys_within(t as int, s as int, fuel as nat),
            decreases fuel,
        {
            if t == s {
                return true;
            }
            if fuel == 0 {
                return false;
            }
            assert(self@.system_wf(t as int));
            match self.systems[t].frame {
                Some(hf) => {
                    assert(self@.frame_wf(hf as int));
                    t = self.frames[hf].parent;
                    fuel = fuel - 1;
                },
                None => {
                    return false;
                },
            }
        }
    }

    /// Breadth-first search by name over every frame below system `s`.
    pub(crate) fn find(&self, s: usize, name: &String) -> (r: Option<usize>)
        requires
            self@.wf(),
            self@.has_system(s as int),
        ensures
            match r {
                Some(f) => self@.find(s as int, name@) == Some(f as int) && self@.has_frame(f as int),
                None => self@.find(s as int, name@) is None,
            },
    {
        let ghost v = self@;
        let mut level: Vec<usize> = Vec::new();
        let mut i: usize = 0;
        assert(self@.system_wf(s as int));
        while i < self.systems[s].frames.len()
            invariant
                v == self@,
                v.wf(),
                v.has_system(s as int),
                i <= self.systems@[s as int].frames@.len(),
                ints(level@) == v.systems[s as int].frames.subrange(0, i as int),
            decreases self.systems@[s as int].frames@.len() - i,
        {
            assert(v.systems[s as int] == self.systems@[s as int].view());
            assert(v.systems[s as int].frames[i as int] == self.systems@[s as int].frames@[i as int] as int);
            proof {
                lemma_ints_push(level@, self.systems@[s as int].frames@[i as int]);
            }
            level.push(self.systems[s].frames[i]);
            i = i + 1;
            assert(ints(level@) =~= v.systems[s as int].frames.subrange(0, i as int));
        }
        assert(ints(level@) =~= v.systems[s as int].frames);
        assert forall|j: int| 0 <= j < level@.len() implies v.has_frame(#[trigger] level@[j] as int) by {
            assert(ints(level@)[j] == level@[j] as int);
        }
        let mut fuel = self.systems.len();
        while fuel > 0
            invariant
                v == self@,
                v.wf(),
                forall|j: int| 0 <= j < level@.len() ==> v.has_frame(#[trigger] level@[j] as int),
                v.find(s as int, name@) == v.first_named(v.below(ints(level@), fuel as nat), name@),
            decreases fuel,
        {
            let ghost lv = ints(level@);
            let mut i: usize = 0;
            while i < level.len()
                invariant
                    v == self@,
                    v.wf(),
                    lv == ints(level@),
                    i <= level@.len(),
                    fuel > 0,
                    v.find(s as int, name@) == v.first_named(v.below(lv, fuel as nat), name@),
                    forall|j: int| 0 <= j < level@.len() ==> v.has_frame(#[trigger] level@[j] as int),
                    forall|j: int| 0 <= j < i ==> v.frames[#[trigger] lv[j]].name != name@,
                decreases level@.len() - i,
            {
                let f = level[i];
                if self.frames[f].name == *name {
                    proof {
                        assert(lv[i as int] == f as int);
                        assert(v.frames[f as int] == self.frames@[f as int].view());
                        assert(lv.subrange(i as int, lv.len() as int)[0] == lv[i as int]);
                        assert(v.first_named(lv.subrange(i as int, lv.len() as int), name@) == Some(f as int));
                        assert(v.below(lv, fuel as nat) == lv + v.below(v.next_level(lv), (fuel - 1) as nat));
                        lemma_first_named_skip(v, lv, name@, i as int);
                        lemma_first_named_append(v, lv, v.below(v.next_level(lv), (fuel - 1) as nat), name@);
                    }
                    return Some(f);
                }
                i = i + 1;
            }
            proof {
                assert(v.below(lv, fuel as nat) == lv + v.below(v.next_level(lv), (fuel - 1) as nat));
                lemma_first_named_skip(v, lv, name@, lv.len() as int);
                lemma_first_named_append(v, lv, v.below(v.next_level(lv), (fuel - 1) as nat), name@);
            }
            let mut next: Vec<usize> = Vec::new();
            let mut i: usize = 0;
            while i < level.len()
                invariant
                    v == self@,
                    v.wf(),
                    lv == ints(level@),
                    i <= level@.len(),
                    forall|j: int| 0 <= j < level@.len() ==> v.has_frame(#[trigger] level@[j] as int),
                    forall|j: int| 0 <= j < next@.len() ==> v.has_frame(#[trigger] next@[j] as int),
                    ints(next@) == v.next_level(lv.subrange(0, i as int)),
                decreases level@.len() - i,
            {
                let f = level[i];
                assert(lv.subrange(0, i + 1).drop_last() =~= lv.subrange(0, i as int));
                assert(v.frame_wf(f as int));
                match self.frames[f].content {
                    Some(Content::System(c)) => {
                        assert(v.system_wf(c as int));
                        assert(v.systems[c as int] == self.systems@[c as int].view());
                        let ghost before = ints(next@);
                        let mut j: usize = 0;
                        while j < self.systems[c].frames.len()
                            invariant
                                v == self@,
                                v.wf(),
                                v.has_system(c as int),
                                v.system_wf(c as int),
                                j <= self.systems@[c as int].frames@.len(),
                                forall|k: int| 0 <= k < next@.len() ==> v.has_frame(#[trigger] next@[k] as int),
                                ints(next@) == before + v.systems[c as int].frames.subrange(0, j as int),
                            decreases self.systems@[c as int].frames@.len() - j,
                        {
                            assert(v.systems[c as int].frames[j as int] == self.systems@[c as int].frames@[j as int] as int);
                            proof {
                                lemma_ints_push(next@, self.systems@[c as int].frames@[j as int]);
                            }
                            next.push(self.systems[c].frames[j]);
                            j = j + 1;
                            assert(ints(next@) =~= before + v.systems[c as int].frames.subrange(0, j as int));
                        }
                        assert(v.systems[c as int].frames.subrange(0, j as int) =~= v.systems[c as int].frames);
                    },
                    _ => {
                        assert(v.children(f as int) =~= Seq::<int>::empty());
                        assert(ints(next@) =~= ints(next@) + v.children(f as int));
                    },
                }
                i = i + 1;
            }
            assert(lv.subrange(0, i as int) =~= lv);
            level = next;
            fuel = fuel - 1;
        }
        None
    }

    /// The name a new frame of system `s` gets when its object is labelled
    /// `base`.
    fn pick_name(&self, s: usize, base: String) -> (r: String)
        requires
            self@.wf(),
            self@.has_system(s as int),
            self@.frames.len() + 3 <= u64::MAX,
        ensures
            self@.fresh_name(s as int, base@, r@),
    {
        if self.find(s, &base).is_none() {
            return base;
        }
        proof {
            lemma_some_suffix_free(self@, s as int, base@);
        }
        let mut k: u64 = 2;
        loop
            invariant
                self@.wf(),
                self@.has_system(s as int),
                self@.frames.len() + 3 <= u64::MAX,
                2 <= k,
                self@.taken(s as int, base@),
                forall|j: nat| 2 <= j < k ==> #[trigger] self@.taken(s as int, base@ + decimal(j)),
                exists|j: nat|
                    2 <= j < self@.frames.len() + 3 && !self@.taken(s as int, #[trigger] (base@ + decimal(j))),
            decreases u64::MAX - k,
        {
            let digits = decimal_string(k);
            let candidate = base.clone().concat(digits.as_str());
            if self.find(s, &candidate).is_none() {
                assert(candidate@ == base@ + decimal(k as nat));
                return candidate;
            }
            let ghost free = choose|j: nat|
                2 <= j < self@.frames.len() + 3 && !self@.taken(s as int, #[trigger] (base@ + decimal(j)));
            assert(free > k);
            k = k + 1;
        }
    }

    /// Appends a frame holding `content` to system `s`, named after `base`.
    fn add_frame(&mut self, s: usize, content: Option<Content>, base: String) -> (r: Frame)
        requires
            old(self)@.wf(),
            old(self)@.has_system(s as int),
            old(self)@.content_ok(content, s as int),
            old(self)@.frames.len() + 3 <= u64::MAX,
            old(self)@.frames.len() < usize::MAX,
        ensures
            final(self)@.wf(),
            r.index == old(self)@.frames.len(),
            old(self)@.fresh_name(s as int, base@, final(self)@.frames[r.index as int].name),
            final(self)@ == old(self)@.with_frame(s as int, content, final(self)@.frames[r.index as int].name),
    {
        let name = self.pick_name(s, base);
        let ghost v = self@;
        let f = self.frames.len();
        proof {
            assert(!v.taken(s as int, name@));
            lemma_with_frame_wf(v, s as int, content, name@);
        }
        self.frames.push(FrameRec { parent: s, name, content, scheduled: false, running: false });
        self.systems[s].frames.push(f);
        match content {
            Some(Content::System(t)) => {
                self.systems[t].frame = Some(f);
            },
            _ => {},
        }
        let ghost w = v.with_frame(s as int, content, self@.frames[f as int].name);
        assert(self@.frames =~~= w.frames);
        assert(self@.systems[s as int].frames =~= w.systems[s as int].frames);
        assert(self@.systems =~~= w.systems);
        Frame { index: f }
    }

    /// Puts `c` into frame `f`; a system it held before is left detached.
    fn set_content(&mut self, f: usize, c: Option<Content>)
        requires
            old(self)@.wf(),
            old(self)@.has_frame(f as int),
            old(self)@.content_ok(c, old(self)@.frames[f as int].parent),
        ensures
            final(self)@.wf(),
            final(self)@ == old(self)@.with_content(f as int, c),
    {
        let ghost v = self@;
        proof {
            lemma_with_content_wf(v, f as int, c);
        }
        match self.frames[f].content {
            Some(Content::System(t0)) => {
                assert(v.frame_wf(f as int));
                self.systems[t0].frame = None;
            },
            _ => {},
        }
        self.frames[f].content = c;
        match c {
            Some(Content::System(t)) => {
                self.systems[t].frame = Some(f);
            },
            _ => {},
        }
        let ghost w = v.with_content(f as int, c);
        assert(self@.frames =~~= w.frames);
        assert(self@.systems =~~= w.systems);
    }

    /// Stores `object` in the arena and gives what a frame is to hold.
    fn store(&mut self, object: Option<ConcreteObject<O>>) -> (r: Option<Content>)
        requires
            old(self)@.wf(),
            object matches Some(ConcreteObject::Other(_)) ==> old(self)@.n_objects < usize::MAX,
        ensures
            final(self)@.wf(),
            final(self)@ == stored(old(self)@, object),
            r == held(old(self)@.n_objects, object),
    {
        match object {
            None => None,
            Some(ConcreteObject::Other(o)) => {
                let k = self.objects.len();
                self.objects.push(o);
                proof {
                    let v = self@;
                    assert(v.frames =~~= old(self)@.frames);
                    assert(v.systems =~~= old(self)@.systems);
                    assert forall|g: int| 0 <= g < v.frames.len() implies #[trigger] v.frame_wf(g) by {
                        assert(old(self)@.frame_wf(g));
                    }
                    assert forall|u: int| 0 <= u < v.systems.len() implies #[trigger] v.system_wf(u) by {
                        assert(old(self)@.system_wf(u));
                    }
                }
                Some(Content::Other(k))
            },
            Some(ConcreteObject::System(t)) => Some(Content::System(t.index)),
        }
    }

    /// Records a `relation` link from frame `a` to frame `b` in system `s`.
    pub fn link_in(&mut self, s: SystemId, a: Frame, b: Frame, relation: Relation)
        requires
            old(self)@.wf(),
            old(self)@.has_system(s.index as int),
            old(self)@.has_frame(a.index as int),
            old(self)@.has_frame(b.index as int),
        ensures
            final(self)@.wf(),
            final(self)@ == old(self)@.with_link(
                s.index as int,
                LinkView {
                    relation,
                    a: EndView::Direct(a.index as int),
                    b: EndView::Direct(b.index as int),
                },
            ),
    {
        let ghost l = LinkView {
            relation,
            a: EndView::Direct(a.index as int),
            b: EndView::Direct(b.index as int),
        };
        proof {
            lemma_with_link_wf(self@, s.index as int, l);
        }
        let ghost v = self@;
        self.systems[s.index].links.push(
            Link { relation, a: LinkEnd::Direct(a.index), b: LinkEnd::Direct(b.index) },
        );
        assert(self@.systems[s.index as int].links =~= v.with_link(s.index as int, l).systems[s.index as int].links);
        assert(self@.systems =~~= v.with_link(s.index as int, l).systems);
    }

    /// Records a `relation` link from frame `a` to frame `b` in the root
    /// system.
    pub fn link(&mut self, a: Frame, b: Frame, relation: Relation)
        requires
            old(self)@.wf(),
            old(self)@.has_frame(a.index as int),
            old(self)@.has_frame(b.index as int),
        ensures
            final(self)@.wf(),
            final(self)@ == old(self)@.with_link(
                0,
                LinkView {
                    relation,
                    a: EndView::Direct(a.index as int),
                    b: EndView::Direct(b.index as int),
                },
            ),
    {
        self.link_in(SystemId { index: 0 }, a, b, relation);
    }

    /// Endpoint `e` cut (`heal` false) or healed (`heal` true) for system `s`.
    fn rewritten_end(&self, s: usize, e: &LinkEnd, heal: bool) -> (r: LinkEnd)
        requires
            self@.wf(),
            self@.has_system(s as int),
            self@.systems[s as int].frame is Some,
            self@.has_frame(e.view().anchor()),
        ensures
            r.view() == if heal {
                self@.heal_end(s as int, e.view())
            } else {
                self@.cut_end(s as int, e.view())
            },
            self@.has_frame(r.view().anchor()),
    {
        assert(self@.system_wf(s as int));
        assert(self.systems@[s as int].view() == self@.systems[s as int]);
        let h = match self.systems[s].frame {
            Some(h) => h,
            None => {
                return LinkEnd::Direct(0);
            },
        };
        if heal {
            match e {
                LinkEnd::Symbolic(f, name) => {
                    if *f == h {
                        match self.find(s, name) {
                            Some(t) => LinkEnd::Direct(t),
                            None => LinkEnd::Symbolic(*f, name.clone()),
                        }
                    } else {
                        LinkEnd::Symbolic(*f, name.clone())
                    }
                },
                LinkEnd::Direct(f) => LinkEnd::Direct(*f),
            }
        } else {
            let target = self.resolve(e);
            let inside = match target {
                Some(t) => self.contains(s, t),
                None => false,
            };
            if inside {
                let t = target.unwrap();
                assert(self.frames@[t as int].view() == self@.frames[t as int]);
                LinkEnd::Symbolic(h, self.frames[t].name.clone())
            } else {
                match e {
                    LinkEnd::Symbolic(f, name) => LinkEnd::Symbolic(*f, name.clone()),
                    LinkEnd::Direct(f) => LinkEnd::Direct(*f),
                }
            }
        }
    }

    /// Rewrites every link of system `p` for system `s`, deciding each
    /// endpoint on the arena `shape`, whose tree this one shares.
    fn rewrite_links(&mut self, shape: Ghost<SystemView>, s: usize, p: usize, heal: bool)
        requires
            old(self)@.wf(),
            old(self)@.same_shape(shape@),
            shape@.wf(),
            old(self)@.has_system(s as int),
            old(self)@.has_system(p as int),
            shape@.systems[s as int].frame is Some,
        ensures
            final(self)@.wf(),
            final(self)@.same_shape(shape@),
            final(self)@ == old(self)@.rewrite_at(shape@, s as int, p as int, heal),
    {
        let ghost v0 = self@;
        let ghost target = v0.rewrite_at(shape@, s as int, p as int, heal);
        let n = self.systems[p].links.len();
        let mut i: usize = 0;
        while i < n
            invariant
                self@.wf(),
                self@.same_shape(shape@),
                shape@.wf(),
                v0.same_shape(shape@),
                self@.has_system(s as int),
                self@.has_system(p as int),
                shape@.systems[s as int].frame is Some,
                target == v0.rewrite_at(shape@, s as int, p as int, heal),
                self@.frames == v0.frames,
                self@.n_objects == v0.n_objects,
                n == self@.systems[p as int].links.len(),
                n == v0.systems[p as int].links.len(),
                self@.systems.len() == v0.systems.len(),
                forall|q: int| 0 <= q < v0.systems.len() && q != p ==> self@.systems[q] == v0.systems[q],
                self@.systems[p as int].frame == v0.systems[p as int].frame,
                self@.systems[p as int].frames == v0.systems[p as int].frames,
                forall|j: int| 0 <= j < i ==> self@.systems[p as int].links[j] == target.systems[p as int].links[j],
                forall|j: int| i <= j < n ==> self@.systems[p as int].links[j] == v0.systems[p as int].links[j],
                i <= n,
            decreases n - i,
        {
            let ghost v = self@;
            assert(v.system_wf(p as int));
            assert(self.systems@[p as int].view() == v.systems[p as int]);
            assert(self.systems@[p as int].links@[i as int].view() == v.systems[p as int].links[i as int]);
            assert(v.link_wf(v.systems[p as int].links[i as int]));
            assert(v.systems[s as int].frame == shape@.systems[s as int].frame);
            let relation = self.systems[p].links[i].relation;
            let a = self.rewritten_end(s, &self.systems[p].links[i].a, heal);
            let b = self.rewritten_end(s, &self.systems[p].links[i].b, heal);
            let ghost old_l = v.systems[p as int].links[i as int];
            proof {
                lemma_shape_resolve(v, shape@, old_l.a);
                lemma_shape_resolve(v, shape@, old_l.b);
                lemma_resolve_valid(v, old_l.a);
                lemma_resolve_valid(v, old_l.b);
                if let Some(t) = v.resolve(old_l.a) {
                    lemma_shape_contains(v, shape@, s as int, t);
                }
                if let Some(t) = v.resolve(old_l.b) {
                    lemma_shape_contains(v, shape@, s as int, t);
                }
                lemma_shape_find(v, shape@, s as int, match old_l.a { EndView::Symbolic(_, n) => n, _ => Seq::empty() });
                lemma_shape_find(v, shape@, s as int, match old_l.b { EndView::Symbolic(_, n) => n, _ => Seq::empty() });
            }
            let nl = Link { relation, a, b };
            proof {
                lemma_set_link_wf(v, p as int, i as int, nl.view());
            }
            self.systems[p].links.set(i, nl);
            proof {
                let w = self@;
                let sy = v.systems[p as int];
                let expect = SystemView {
                    frames: v.frames,
                    systems: v.systems.update(
                        p as int,
                        SysView { frame: sy.frame, frames: sy.frames, links: sy.links.update(i as int, nl.view()) },
                    ),
                    n_objects: v.n_objects,
                };
                assert(w.systems[p as int].links =~= expect.systems[p as int].links);
                assert(w.systems =~~= expect.systems);
                assert(w.frames == expect.frames);
                assert(target.systems[p as int].links[i as int] == if heal {
                    shape@.heal_link(s as int, old_l)
                } else {
                    shape@.cut_link(s as int, old_l)
                });
            }
            i = i + 1;
        }
        proof {
            assert(self@.systems[p as int].links =~= target.systems[p as int].links);
            assert(self@.systems =~~= target.systems);
        }
    }

    /// Rewrites the links of every system above system `s`, cutting or
    /// healing them for `s`.
    fn rewrite_above(&mut self, s: usize, heal: bool)
        requires
            old(self)@.wf(),
            old(self)@.has_system(s as int),
            old(self)@.systems[s as int].frame is Some,
        ensures
            final(self)@.wf(),
            final(self)@.same_shape(old(self)@),
            final(self)@ == old(self)@.rewrite_above(s as int, heal),
    {
        let ghost shape = self@;
        assert(shape.system_wf(s as int));
        assert(self.systems@[s as int].view() == shape.systems[s as int]);
        let h = match self.systems[s].frame {
            Some(h) => h,
            None => {
                return;
            },
        };
        assert(shape.frame_wf(h as int));
        assert(self.frames@[h as int].view() == shape.frames[h as int]);
        let mut p = self.frames[h].parent;
        let mut fuel = self.systems.len();
        loop
            invariant
                self@.wf(),
                self@.same_shape(shape),
                shape.wf(),
                shape == old(self)@,
                self@.has_system(p as int),
                self@.has_system(s as int),
                shape.systems[s as int].frame is Some,
                self@.rewrite_from(shape, s as int, p as int, heal, fuel as nat)
                    == shape.rewrite_above(s as int, heal),
            decreases fuel,
        {
            let ghost before = self@;
            self.rewrite_links(Ghost(shape), s, p, heal);
            assert(before.rewrite_from(shape, s as int, p as int, heal, fuel as nat) == if fuel > 0
                && shape.systems[p as int].frame is Some {
                self@.rewrite_from(
                    shape,
                    s as int,
                    shape.frames[shape.systems[p as int].frame.unwrap()].parent,
                    heal,
                    (fuel - 1) as nat,
                )
            } else {
                self@
            });
            proof {
                lemma_shape_sym(self@, shape);
            }
            if fuel == 0 {
                return;
            }
            assert(self@.systems[p as int].frame == shape.systems[p as int].frame);
            assert(self.systems@[p as int].view() == self@.systems[p as int]);
            match self.systems[p].frame {
                Some(x) => {
                    assert(self@.system_wf(p as int));
                    assert(self@.frame_wf(x as int));
                    assert(self.frames@[x as int].view() == self@.frames[x as int]);
                    p = self.frames[x].parent;
                    fuel = fuel - 1;
                },
                None => {
                    return;
                },
            }
        }
    }

    /// Cuts (`heal` false) or heals (`heal` true) the links above the system
    /// that frame `f` holds, if it holds one.
    fn rewrite_for(&mut self, f: usize, heal: bool)
        requires
            old(self)@.wf(),
            old(self)@.has_frame(f as int),
        ensures
            final(self)@.wf(),
            final(self)@.same_shape(old(self)@),
            final(self)@ == if heal {
                old(self)@.heal_for(f as int)
            } else {
                old(self)@.cut_for(f as int)
            },
    {
        assert(self@.frame_wf(f as int));
        assert(self.frames@[f as int].view() == self@.frames[f as int]);
        match self.frames[f].content {
            Some(Content::System(t)) => {
                self.rewrite_above(t, heal);
            },
            _ => {},
        }
    }

    /// Exchanges the contents of frames `a` and `b`; a nested system learns
    /// its new holder.
    fn exchange(&mut self, a: usize, b: usize)
        requires
            old(self)@.wf(),
            old(self)@.has_frame(a as int),
            old(self)@.has_frame(b as int),
        ensures
            final(self)@.wf(),
            final(self)@ == old(self)@.exchange(a as int, b as int),
    {
        let ghost v = self@;
        proof {
            lemma_exchange_wf(v, a as int, b as int);
        }
        assert(v.frame_wf(a as int));
        assert(v.frame_wf(b as int));
        assert(self.frames@[a as int].view() == v.frames[a as int]);
        assert(self.frames@[b as int].view() == v.frames[b as int]);
        let ca = self.frames[a].content;
        let cb = self.frames[b].content;
        self.frames[a].content = cb;
        self.frames[b].content = ca;
        let ghost mid = SystemView { frames: self@.frames, systems: v.systems, n_objects: v.n_objects };
        assert(self@.frames =~~= v.exchange(a as int, b as int).frames);
        match self.frames[a].content {
            Some(Content::System(t)) => {
                self.systems[t].frame = Some(a);
            },
            _ => {},
        }
        match self.frames[b].content {
            Some(Content::System(t)) => {
                self.systems[t].frame = Some(b);
            },
            _ => {},
        }
        assert(self@.systems =~~= v.exchange(a as int, b as int).systems);
    }

    /// Sets frame `f`'s scheduling flags.
    pub(crate) fn set_flags(&mut self, f: usize, scheduled: bool, running: bool)
        requires
            old(self)@.wf(),
            old(self)@.has_frame(f as int),
        ensures
            final(self)@.wf(),
            final(self)@ == old(self)@.with_flags(f as int, scheduled, running),
    {
        proof {
            lemma_flags_wf(self@, f as int, scheduled, running);
        }
        let ghost v = self@;
        self.frames[f].scheduled = scheduled;
        self.frames[f].running = running;
        assert(self@.frames =~~= v.with_flags(f as int, scheduled, running).frames);
    }

    pub(crate) fn content_of(&self, f: usize) -> (r: Option<Content>)
        requires
            self@.has_frame(f as int),
        ensures
            r == self@.frames[f as int].content,
    {
        self.frames[f].content
    }

    /// The frame that endpoint `e` stands for now, if any.
    fn resolve(&self, e: &LinkEnd) -> (r: Option<usize>)
        requires
            self@.wf(),
            self@.has_frame(e.view().anchor()),
        ensures
            match r {
                Some(t) => self@.resolve(e.view()) == Some(t as int) && self@.has_frame(t as int),
                None => self@.resolve(e.view()) is None,
            },
    {
        match e {
            LinkEnd::Direct(t) => Some(*t),
            LinkEnd::Symbolic(g, name) => {
                assert(self@.frame_wf(*g as int));
                assert(self.frames@[*g as int].view() == self@.frames[*g as int]);
                match self.frames[*g].content {
                    Some(Content::System(c)) => self.find(c, name),
                    _ => None,
                }
            },
        }
    }

    /// The frames that the completion of frame `f` schedules, in order.
    pub(crate) fn fired(&self, f: usize) -> (r: Vec<usize>)
        requires
            self@.wf(),
            self@.has_frame(f as int),
        ensures
            ints(r@) == self@.fired(f as int),
            forall|i: int| 0 <= i < r@.len() ==> self@.has_frame(#[trigger] r@[i] as int),
    {
        let ghost v = self@;
        let mut out: Vec<usize> = Vec::new();
        assert(v.frame_wf(f as int));
        assert(self.frames@[f as int].view() == v.frames[f as int]);
        let mut p = self.frames[f].parent;
        let mut fuel = self.systems.len();
        assert(ints(out@) =~= Seq::<int>::empty());
        loop
            invariant
                v == self@,
                v.wf(),
                v.has_frame(f as int),
                v.has_system(p as int),
                ints(out@) + v.fired_from(p as int, f as int, fuel as nat) == v.fired(f as int),
                forall|i: int| 0 <= i < out@.len() ==> v.has_frame(#[trigger] out@[i] as int),
            decreases fuel,
        {
            let ghost start = ints(out@);
            assert(v.system_wf(p as int));
            assert(self.systems@[p as int].view() == v.systems[p as int]);
            let ghost links = v.systems[p as int].links;
            let n = self.systems[p].links.len();
            let mut i: usize = 0;
            assert(links.subrange(0, 0) =~= Seq::<LinkView>::empty());
            assert(ints(out@) =~= start + v.then_targets(links.subrange(0, 0), f as int));
            while i < n
                invariant
                    v == self@,
                    v.wf(),
                    v.has_system(p as int),
                    v.system_wf(p as int),
                    links == v.systems[p as int].links,
                    n == links.len(),
                    i <= n,
                    ints(out@) == start + v.then_targets(links.subrange(0, i as int), f as int),
                    forall|i: int| 0 <= i < out@.len() ==> v.has_frame(#[trigger] out@[i] as int),
                decreases n - i,
            {
                assert(links.subrange(0, i + 1).drop_last() =~= links.subrange(0, i as int));
                assert(self.systems@[p as int].view() == v.systems[p as int]);
                assert(self.systems@[p as int].links@[i as int].view() == links[i as int]);
                let l = &self.systems[p].links[i];
                assert(v.link_wf(links[i as int]));
                let hit = match self.resolve(&l.a) {
                    Some(a) => a == f,
                    None => false,
                };
                if l.relation == Relation::Then && hit {
                    match self.resolve(&l.b) {
                        Some(t) => {
                            proof {
                                lemma_ints_push(out@, t);
                            }
                            out.push(t);
                        },
                        None => {},
                    }
                }
                i = i + 1;
            }
            assert(links.subrange(0, n as int) =~= links);
            if fuel == 0 {
                return out;
            }
            match self.systems[p].frame {
                Some(x) => {
                    assert(v.frame_wf(x as int));
                    assert(self.frames@[x as int].view() == v.frames[x as int]);
                    assert(ints(out@) + v.fired_from(self.frames@[x as int].parent as int, f as int, (fuel - 1) as nat)
                        =~= start + v.fired_from(p as int, f as int, fuel as nat));
                    p = self.frames[x].parent;
                    fuel = fuel - 1;
                },
                None => {
                    assert(ints(out@) =~= start + v.fired_from(p as int, f as int, fuel as nat));
                    assert(ints(out@) =~= ints(out@) + Seq::<int>::empty());
                    return out;
                },
            }
        }
    }

    /// Whether every `Then` link whose source end stands for a frame has a
    /// target end that stands for one too; driving the task loop asks for
    /// it.
    pub fn targets_resolve(&self) -> (r: bool)
        requires
            self@.wf(),
        ensures
            r == self@.targets_resolve(),
    {
        let ghost v = self@;
        let mut p: usize = 0;
        while p < self.systems.len()
            invariant
                v == self@,
                v.wf(),
                p <= v.systems.len(),
                forall|q: int, j: int|
                    0 <= q < p && 0 <= j < v.systems[q].links.len() && (#[trigger] v.systems[q].links[j]).relation
                        == Relation::Then && v.resolve(v.systems[q].links[j].a) is Some ==> v.resolve(
                        v.systems[q].links[j].b,
                    ) is Some,
            decreases v.systems.len() - p,
        {
            assert(v.system_wf(p as int));
            assert(self.systems@[p as int].view() == v.systems[p as int]);
            let mut j: usize = 0;
            while j < self.systems[p].links.len()
                invariant
                    v == self@,
                    v.wf(),
                    p < v.systems.len(),
                    v.system_wf(p as int),
                    j <= v.systems[p as int].links.len(),
                    self.systems@[p as int].view() == v.systems[p as int],
                    forall|q: int, k: int|
                        0 <= q < p && 0 <= k < v.systems[q].links.len() && (#[trigger] v.systems[q].links[k]).relation
                            == Relation::Then && v.resolve(v.systems[q].links[k].a) is Some ==> v.resolve(
                            v.systems[q].links[k].b,
                        ) is Some,
                    forall|k: int|
                        0 <= k < j && (#[trigger] v.systems[p as int].links[k]).relation == Relation::Then
                            && v.resolve(v.systems[p as int].links[k].a) is Some ==> v.resolve(
                            v.systems[p as int].links[k].b,
                        ) is Some,
                decreases v.systems[p as int].links.len() - j,
            {
                let l = &self.systems[p].links[j];
                assert(l.view() == v.systems[p as int].links[j as int]);
                assert(v.link_wf(v.systems[p as int].links[j as int]));
                if l.relation == Relation::Then {
                    let source = self.resolve(&l.a);
                    let target = self.resolve(&l.b);
                    if source.is_some() && target.is_none() {
                        return false;
                    }
                }
                j = j + 1;
            }
            p = p + 1;
        }
        true
    }

    /// The name of frame `f`.
    pub fn name_of(&self, f: Frame) -> (r: String)
        requires
            self@.has_frame(f.index as int),
        ensures
            r@ == self@.frames[f.index as int].name,
    {
        self.frames[f.index].name.clone()
    }

    /// Whether frame `f` waits in a task loop's queue.
    pub fn scheduled(&self, f: Frame) -> (r: bool)
        requires
            self@.has_frame(f.index as int),
        ensures
            r == self@.frames[f.index as int].scheduled,
    {
        self.frames[f.index].scheduled
    }

    /// Whether frame `f` has started and not yet completed.
    pub fn running(&self, f: Frame) -> (r: bool)
        requires
            self@.has_frame(f.index as int),
        ensures
            r == self@.frames[f.index as int].running,
    {
        self.frames[f.index].running
    }

    /// An empty root system.
    pub fn new() -> (r: System<O>)
        ensures
            r@.wf(),
            r@.frames.len() == 0,
            r@.systems.len() == 1,
            r@.systems[0].frames.len() == 0,
            r@.systems[0].links.len() == 0,
    {
        let mut systems: Vec<SysRec> = Vec::new();
        systems.push(SysRec { frame: None, frames: Vec::new(), links: Vec::new() });
        let r = System { frames: Vec::new(), systems, objects: Vec::new() };
        assert(r@.systems[0] == r.systems@[0].view());
        r
    }

    /// The root system's handle.
    pub fn root(&self) -> (r: SystemId)
        ensures
            r.index == 0,
    {
        SystemId { index: 0 }
    }

    /// A new empty system, held by no frame yet; a frame takes it with
    /// `ConcreteObject::System`.
    pub fn new_system(&mut self) -> (r: SystemId)
        requires
            old(self)@.wf(),
            old(self)@.systems.len() < usize::MAX,
        ensures
            final(self)@.wf(),
            r.index == old(self)@.systems.len(),
            final(self)@.frames == old(self)@.frames,
            final(self)@.n_objects == old(self)@.n_objects,
            final(self)@.systems == old(self)@.systems.push(
                SysView { frame: None, frames: Seq::empty(), links: Seq::empty() },
            ),
    {
        let r = SystemId { index: self.systems.len() };
        self.systems.push(SysRec { frame: None, frames: Vec::new(), links: Vec::new() });
        assert(self.systems@.last().view().frames =~= Seq::empty());
        assert(self.systems@.last().view().links =~= Seq::empty());
        assert(self@.systems =~~= old(self)@.systems.push(
            SysView { frame: None, frames: Seq::empty(), links: Seq::empty() },
        ));
        assert forall|f: int| 0 <= f < self@.frames.len() implies #[trigger] self@.frame_wf(f) by {
            assert(old(self)@.frame_wf(f));
        }
        assert forall|s: int| 0 <= s < self@.systems.len() implies #[trigger] self@.system_wf(s) by {
            if s < old(self)@.systems.len() {
                assert(old(self)@.system_wf(s));
            }
        }
        r
    }
}

impl<O: Object> System<O> {
    /// Runs the stored object `k`; the arena's state is untouched.
    pub(crate) fn run_object(&mut self, k: usize, ctx: &mut RunContext)
        requires
            k < old(self)@.n_objects,
        ensures
            final(self)@ == old(self)@,
    {
        let ghost v = self@;
        self.objects[k].run(ctx);
        assert(self@.frames =~~= v.frames);
        assert(self@.systems =~~= v.systems);
    }

    /// Hands `update` to the stored object `k`; the arena's state is
    /// untouched.
    pub(crate) fn update_object(&mut self, k: usize, update: Vec<u8>)
        requires
            k < old(self)@.n_objects,
        ensures
            final(self)@ == old(self)@,
    {
        let ghost v = self@;
        self.objects[k].update(update);
        assert(self@.frames =~~= v.frames);
        assert(self@.systems =~~= v.systems);
    }

    /// Appends a frame holding `object` to system `s`. It is named after the
    /// object's label (`System` for a nested system, `Frame` for none), made
    /// unique below `s`.
    pub fn frame_in(&mut self, s: SystemId, object: Option<ConcreteObject<O>>) -> (r: Frame)
        requires
            old(self)@.wf(),
            old(self)@.has_system(s.index as int),
            old(self)@.frames.len() + 3 <= u64::MAX,
            old(self)@.frames.len() < usize::MAX,
            object_ok(old(self)@, object, s.index as int),
        ensures
            final(self)@.wf(),
            r.index == old(self)@.frames.len(),
            final(self)@ == stored(old(self)@, object).with_frame(
                s.index as int,
                held(old(self)@.n_objects, object),
                final(self)@.frames[r.index as int].name,
            ),
            match object {
                Some(ConcreteObject::Other(_)) => exists|base: Seq<char>|
                    stored(old(self)@, object).fresh_name(s.index as int, base, final(self)@.frames[r.index as int].name),
                _ => stored(old(self)@, object).fresh_name(
                    s.index as int,
                    fixed_label(object),
                    final(self)@.frames[r.index as int].name,
                ),
            },
    {
        let base = match &object {
            Some(ConcreteObject::Other(o)) => String::from_str(o.name()),
            Some(ConcreteObject::System(_)) => {
                proof {
                    reveal_strlit("System");
                }
                String::from_str("System")
            },
            None => {
                proof {
                    reveal_strlit("Frame");
                }
                String::from_str("Frame")
            },
        };
        let ghost v = self@;
        let ghost obj = object;
        let content = self.store(object);
        let r = self.add_frame(s.index, content, base);
        proof {
            let n = self@.frames[r.index as int].name;
            match obj {
                Some(ConcreteObject::Other(_)) => {},
                Some(ConcreteObject::System(_)) => {
                    assert(base@ =~= fixed_label(obj));
                },
                None => {
                    assert(base@ =~= fixed_label(obj));
                },
            }
        }
        r
    }

    /// Appends a frame holding `object` to the root system.
    pub fn frame(&mut self, object: Option<ConcreteObject<O>>) -> (r: Frame)
        requires
            old(self)@.wf(),
            old(self)@.frames.len() + 3 <= u64::MAX,
            old(self)@.frames.len() < usize::MAX,
            object_ok(old(self)@, object, 0),
        ensures
            final(self)@.wf(),
            r.index == old(self)@.frames.len(),
            final(self)@ == stored(old(self)@, object).with_frame(
                0,
                held(old(self)@.n_objects, object),
                final(self)@.frames[r.index as int].name,
            ),
            match object {
                Some(ConcreteObject::Other(_)) => exists|base: Seq<char>|
                    stored(old(self)@, object).fresh_name(0, base, final(self)@.frames[r.index as int].name),
                _ => stored(old(self)@, object).fresh_name(0, fixed_label(object), final(self)@.frames[r.index as int].name),
            },
    {
        self.frame_in(SystemId { index: 0 }, object)
    }
}

impl Frame {
    /// Exchanges the objects held by frames `a` and `b`. Links above a
    /// moving system that point into it are first turned into references by
    /// name below its frame, and found again by name once the exchange is
    /// done.
    pub fn swap<O>(system: &mut System<O>, a: Frame, b: Frame)
        requires
            old(system)@.wf(),
            old(system)@.has_frame(a.index as int),
            old(system)@.has_frame(b.index as int),
        ensures
            final(system)@.wf(),
            final(system)@ == old(system)@.swapped(a.index as int, b.index as int),
    {
        system.rewrite_for(a.index, false);
        system.rewrite_for(b.index, false);
        system.exchange(a.index, b.index);
        system.rewrite_for(a.index, true);
        system.rewrite_for(b.index, true);
    }

    /// Gives this frame `object` in place of what it held. A system it held
    /// before is left detached; the frame keeps its name.
    pub fn adopt<O: Object>(self, system: &mut System<O>, object: Option<ConcreteObject<O>>)
        requires
            old(system)@.wf(),
            old(system)@.has_frame(self.index as int),
            object_ok(old(system)@, object, old(system)@.frames[self.index as int].parent),
        ensures
            final(system)@.wf(),
            final(system)@ == stored(old(system)@, object).with_content(
                self.index as int,
                held(old(system)@.n_objects, object),
            ),
    {
        let content = system.store(object);
        system.set_content(self.index, content);
    }
}

} // verus!
