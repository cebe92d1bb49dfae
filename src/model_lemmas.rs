use vstd::prelude::*;
use vstd::relations::injective_on;
use vstd::set_lib::*;

use crate::model::{
    decimal, digit_char, holds_system, ints, Content, EndView, LinkView, SysView, SystemView,
};
use crate::object::Relation;

verus! {

pub(crate) proof fn lemma_ints_push(a: Seq<usize>, x: usize)
    ensures
        ints(a.push(x)) == ints(a).push(x as int),
{
    assert(ints(a.push(x)) =~= ints(a).push(x as int));
}

pub(crate) proof fn lemma_decimal_len(n: nat)
    ensures
        decimal(n).len() >= 1,
        n >= 10 ==> decimal(n).len() >= 2,
    decreases n,
{
    if n >= 10 {
        lemma_decimal_len(n / 10);
    }
}

pub(crate) proof fn lemma_decimal_injective(a: nat, b: nat)
    requires
        decimal(a) == decimal(b),
    ensures
        a == b,
    decreases a,
{
    lemma_decimal_len(a);
    lemma_decimal_len(b);
    if a < 10 && b < 10 {
        assert(decimal(a)[0] == digit_char(a as int));
        assert(decimal(b)[0] == digit_char(b as int));
    } else if a >= 10 && b >= 10 {
        assert(decimal(a).last() == digit_char((a % 10) as int));
        assert(decimal(b).last() == digit_char((b % 10) as int));
        assert(decimal(a).drop_last() =~= decimal(a / 10));
        assert(decimal(b).drop_last() =~= decimal(b / 10));
        lemma_decimal_injective(a / 10, b / 10);
        assert(a == 10 * (a / 10) + a % 10);
        assert(b == 10 * (b / 10) + b % 10);
    }
}

pub(crate) proof fn lemma_suffix_injective(base: Seq<char>, a: nat, b: nat)
    requires
        base + decimal(a) == base + decimal(b),
    ensures
        a == b,
{
    assert((base + decimal(a)).subrange(base.len() as int, (base + decimal(a)).len() as int)
        =~= decimal(a));
    assert((base + decimal(b)).subrange(base.len() as int, (base + decimal(b)).len() as int)
        =~= decimal(b));
    lemma_decimal_injective(a, b);
}

pub(crate) proof fn lemma_first_named_some(v: SystemView, fs: Seq<int>, name: Seq<char>)
    ensures
        v.first_named(fs, name) matches Some(f) ==> fs.contains(f) && v.frames[f].name == name,
    decreases fs.len(),
{
    if fs.len() > 0 && v.frames[fs[0]].name != name {
        lemma_first_named_some(v, fs.drop_first(), name);
        if let Some(f) = v.first_named(fs, name) {
            let i = choose|i: int| 0 <= i < fs.drop_first().len() && fs.drop_first()[i] == f;
            assert(fs[i + 1] == f);
        }
    }
}

pub(crate) proof fn lemma_next_level_valid(v: SystemView, lvl: Seq<int>)
    requires
        v.wf(),
        forall|i: int| 0 <= i < lvl.len() ==> v.has_frame(#[trigger] lvl[i]),
    ensures
        forall|i: int| 0 <= i < v.next_level(lvl).len() ==> v.has_frame(#[trigger] v.next_level(lvl)[i]),
    decreases lvl.len(),
{
    if lvl.len() > 0 {
        lemma_next_level_valid(v, lvl.drop_last());
        let f = lvl.last();
        assert(v.frame_wf(f));
        if let Some(Content::System(c)) = v.frames[f].content {
            assert(v.system_wf(c as int));
        }
        let a = v.next_level(lvl.drop_last());
        let b = v.children(f);
        assert forall|i: int| 0 <= i < (a + b).len() implies v.has_frame(#[trigger] (a + b)[i]) by {
            if i >= a.len() {
                assert((a + b)[i] == b[i - a.len()]);
            }
        }
    }
}

pub(crate) proof fn lemma_below_valid(v: SystemView, lvl: Seq<int>, fuel: nat)
    requires
        v.wf(),
        forall|i: int| 0 <= i < lvl.len() ==> v.has_frame(#[trigger] lvl[i]),
    ensures
        forall|i: int| 0 <= i < v.below(lvl, fuel).len() ==> v.has_frame(#[trigger] v.below(lvl, fuel)[i]),
    decreases fuel,
{
    if fuel > 0 {
        lemma_next_level_valid(v, lvl);
        lemma_below_valid(v, v.next_level(lvl), (fuel - 1) as nat);
        let a = lvl;
        let b = v.below(v.next_level(lvl), (fuel - 1) as nat);
        assert forall|i: int| 0 <= i < (a + b).len() implies v.has_frame(#[trigger] (a + b)[i]) by {
            if i >= a.len() {
                assert((a + b)[i] == b[i - a.len()]);
            }
        }
    }
}

/// A name that is found below a system belongs to a frame of the arena.
pub(crate) proof fn lemma_found_frame(v: SystemView, s: int, name: Seq<char>)
    requires
        v.wf(),
        v.has_system(s),
    ensures
        v.find(s, name) matches Some(f) ==> v.has_frame(f) && v.frames[f].name == name,
{
    assert(v.system_wf(s));
    lemma_below_valid(v, v.systems[s].frames, v.systems.len());
    lemma_first_named_some(v, v.descendants(s), name);
}

/// Among the names `base` + 2, `base` + 3, ... one of the first
/// `frames.len() + 1` is free below any system.
pub(crate) proof fn lemma_some_suffix_free(v: SystemView, s: int, base: Seq<char>)
    requires
        v.wf(),
        v.has_system(s),
    ensures
        exists|j: nat| 2 <= j < v.frames.len() + 3 && !v.taken(s, #[trigger] (base + decimal(j))),
{
    if forall|j: nat| 2 <= j < v.frames.len() + 3 ==> v.taken(s, #[trigger] (base + decimal(j))) {
        let n = v.frames.len() as int;
        let g = |j: int| v.find(s, base + decimal(j as nat)).unwrap();
        let x = set_int_range(2, n + 3);
        let y = x.map(g);
        lemma_int_range(2, n + 3);
        lemma_int_range(0, n);
        assert forall|j: int| x.contains(j) implies v.has_frame(#[trigger] g(j))
            && v.frames[g(j)].name == base + decimal(j as nat) by {
            assert(v.taken(s, base + decimal(j as nat)));
            lemma_found_frame(v, s, base + decimal(j as nat));
        }
        assert(injective_on(g, x)) by {
            assert forall|a: int, b: int| x.contains(a) && x.contains(b) && #[trigger] g(a) == #[trigger] g(b) implies a == b by {
                lemma_suffix_injective(base, a as nat, b as nat);
            }
        }
        lemma_map_size(x, y, g);
        assert(y.subset_of(set_int_range(0, n))) by {
            assert forall|f: int| y.contains(f) implies set_int_range(0, n).contains(f) by {
                let j = choose|j: int| x.contains(j) && g(j) == f;
                assert(v.has_frame(g(j)));
            }
        }
        lemma_len_subset(y, set_int_range(0, n));
    }
}

pub(crate) proof fn lemma_first_named_none(v: SystemView, fs: Seq<int>, name: Seq<char>)
    requires
        v.first_named(fs, name) is None,
    ensures
        forall|i: int| 0 <= i < fs.len() ==> v.frames[#[trigger] fs[i]].name != name,
    decreases fs.len(),
{
    if fs.len() > 0 {
        lemma_first_named_none(v, fs.drop_first(), name);
        assert forall|i: int| 0 <= i < fs.len() implies v.frames[#[trigger] fs[i]].name != name by {
            if i > 0 {
                assert(fs[i] == fs.drop_first()[i - 1]);
            }
        }
    }
}

/// A name that is free below a system is not the name of any of its own
/// frames.
pub(crate) proof fn lemma_free_not_sibling(v: SystemView, s: int, name: Seq<char>)
    requires
        v.wf(),
        v.has_system(s),
        !v.taken(s, name),
    ensures
        forall|i: int|
            0 <= i < v.systems[s].frames.len() ==> v.frames[#[trigger] v.systems[s].frames[i]].name
                != name,
{
    let l0 = v.systems[s].frames;
    let rest = v.below(v.next_level(l0), (v.systems.len() - 1) as nat);
    assert(v.descendants(s) == l0 + rest);
    lemma_first_named_append(v, l0, rest, name);
    lemma_first_named_none(v, l0, name);
}

/// Adding a frame with a fresh name and a fitting content keeps the arena
/// well formed.
pub(crate) proof fn lemma_with_frame_wf(v: SystemView, s: int, c: Option<Content>, name: Seq<char>)
    requires
        v.wf(),
        v.has_system(s),
        v.content_ok(c, s),
        !v.taken(s, name),
    ensures
        v.with_frame(s, c, name).wf(),
{
    let w = v.with_frame(s, c, name);
    let f = v.frames.len() as int;
    lemma_free_not_sibling(v, s, name);
    assert forall|g: int| 0 <= g < w.frames.len() implies #[trigger] w.frame_wf(g) by {
        if g < f {
            assert(v.frame_wf(g));
            if let Some(Content::System(t)) = v.frames[g].content {
                assert(v.system_wf(t as int));
                if let Some(Content::System(t2)) = c {
                    assert(t2 != t);
                }
            }
        }
    }
    assert forall|u: int| 0 <= u < w.systems.len() implies #[trigger] w.system_wf(u) by {
        assert(v.system_wf(u));
        let sy = w.systems[u];
        assert forall|j: int| 0 <= j < sy.frames.len() implies w.has_frame(#[trigger] sy.frames[j])
            && w.frames[sy.frames[j]].parent == u by {
            if u == s && j == sy.frames.len() - 1 {
            } else {
                assert(sy.frames[j] == v.systems[u].frames[j]);
            }
        }
        assert forall|j: int| 0 <= j < sy.links.len() implies w.link_wf(#[trigger] sy.links[j]) by {
            assert(v.link_wf(v.systems[u].links[j]));
        }
        let fs = sy.frames;
        assert forall|i: int, j: int|
            0 <= i < fs.len() && 0 <= j < fs.len() && i != j implies #[trigger] w.frames[fs[i]].name
                != #[trigger] w.frames[fs[j]].name by {
            if u == s && (i == fs.len() - 1 || j == fs.len() - 1) {
                if i == fs.len() - 1 {
                    assert(fs[j] == v.systems[s].frames[j]);
                } else {
                    assert(fs[i] == v.systems[s].frames[i]);
                }
            } else {
                assert(fs[i] == v.systems[u].frames[i]);
                assert(fs[j] == v.systems[u].frames[j]);
            }
        }
    }
}

pub(crate) proof fn lemma_shape_sym(v: SystemView, w: SystemView)
    requires
        v.same_shape(w),
    ensures
        w.same_shape(v),
{
    assert forall|s: int| 0 <= s < w.systems.len() implies (#[trigger] w.systems[s]).frame == v.systems[s].frame
        && w.systems[s].frames == v.systems[s].frames by {
        assert(v.systems[s].frame == w.systems[s].frame);
    }
    assert forall|f: int| 0 <= f < w.frames.len() implies (#[trigger] w.frames[f]).parent == v.frames[f].parent
        && w.frames[f].name == v.frames[f].name && w.frames[f].content == v.frames[f].content by {
        assert(v.frames[f].parent == w.frames[f].parent);
    }
}

pub(crate) proof fn lemma_shape_within(v: SystemView, w: SystemView, t: int, s: int, fuel: nat)
    requires
        v.same_shape(w),
        v.wf(),
        v.has_system(t),
    ensures
        v.sys_within(t, s, fuel) == w.sys_within(t, s, fuel),
    decreases fuel,
{
    assert(v.systems[t].frame == w.systems[t].frame);
    assert(v.system_wf(t));
    if fuel > 0 {
        if let Some(u) = v.up(t) {
            assert(v.frame_wf(v.systems[t].frame.unwrap()));
            lemma_shape_within(v, w, u, s, (fuel - 1) as nat);
        }
    }
}

pub(crate) proof fn lemma_shape_contains(v: SystemView, w: SystemView, s: int, f: int)
    requires
        v.same_shape(w),
        v.wf(),
        v.has_frame(f),
    ensures
        v.contains(s, f) == w.contains(s, f),
{
    assert(v.frame_wf(f));
    lemma_shape_within(v, w, v.frames[f].parent, s, v.systems.len());
}

pub(crate) proof fn lemma_shape_first_named(v: SystemView, w: SystemView, fs: Seq<int>, name: Seq<char>)
    requires
        v.same_shape(w),
        forall|i: int| 0 <= i < fs.len() ==> v.has_frame(#[trigger] fs[i]),
    ensures
        v.first_named(fs, name) == w.first_named(fs, name),
    decreases fs.len(),
{
    if fs.len() > 0 {
        assert(v.frames[fs[0]].name == w.frames[fs[0]].name);
        assert forall|i: int| 0 <= i < fs.drop_first().len() implies v.has_frame(#[trigger] fs.drop_first()[i]) by {
            assert(fs.drop_first()[i] == fs[i + 1]);
        }
        lemma_shape_first_named(v, w, fs.drop_first(), name);
    }
}

pub(crate) proof fn lemma_shape_next_level(v: SystemView, w: SystemView, lvl: Seq<int>)
    requires
        v.same_shape(w),
        v.wf(),
        forall|i: int| 0 <= i < lvl.len() ==> v.has_frame(#[trigger] lvl[i]),
    ensures
        v.next_level(lvl) == w.next_level(lvl),
    decreases lvl.len(),
{
    if lvl.len() > 0 {
        lemma_shape_next_level(v, w, lvl.drop_last());
        let f = lvl.last();
        assert(v.frame_wf(f));
        if let Some(Content::System(t)) = v.frames[f].content {
            assert(v.systems[t as int] == v.systems[t as int]);
        }
        assert(v.children(f) == w.children(f));
    }
}

pub(crate) proof fn lemma_shape_below(v: SystemView, w: SystemView, lvl: Seq<int>, fuel: nat)
    requires
        v.same_shape(w),
        v.wf(),
        forall|i: int| 0 <= i < lvl.len() ==> v.has_frame(#[trigger] lvl[i]),
    ensures
        v.below(lvl, fuel) == w.below(lvl, fuel),
    decreases fuel,
{
    if fuel > 0 {
        lemma_shape_next_level(v, w, lvl);
        lemma_next_level_valid(v, lvl);
        lemma_shape_below(v, w, v.next_level(lvl), (fuel - 1) as nat);
    }
}

pub(crate) proof fn lemma_shape_find(v: SystemView, w: SystemView, s: int, name: Seq<char>)
    requires
        v.same_shape(w),
        v.wf(),
        v.has_system(s),
    ensures
        v.find(s, name) == w.find(s, name),
{
    assert(v.system_wf(s));
    assert(v.systems[s].frames == w.systems[s].frames);
    lemma_shape_below(v, w, v.systems[s].frames, v.systems.len());
    lemma_below_valid(v, v.systems[s].frames, v.systems.len());
    lemma_shape_first_named(v, w, v.descendants(s), name);
}

/// Replacing one link of a well-formed arena by one whose endpoints are
/// frames of it keeps the arena well formed and of the same shape.
pub(crate) proof fn lemma_set_link_wf(v: SystemView, p: int, i: int, l: LinkView)
    requires
        v.wf(),
        v.has_system(p),
        0 <= i < v.systems[p].links.len(),
        v.link_wf(l),
    ensures
        ({
            let sy = v.systems[p];
            let w = SystemView {
                frames: v.frames,
                systems: v.systems.update(
                    p,
                    SysView { frame: sy.frame, frames: sy.frames, links: sy.links.update(i, l) },
                ),
                n_objects: v.n_objects,
            };
            w.wf() && v.same_shape(w)
        }),
{
    let sy = v.systems[p];
    let w = SystemView {
        frames: v.frames,
        systems: v.systems.update(
            p,
            SysView { frame: sy.frame, frames: sy.frames, links: sy.links.update(i, l) },
        ),
        n_objects: v.n_objects,
    };
    assert forall|g: int| 0 <= g < w.frames.len() implies #[trigger] w.frame_wf(g) by {
        assert(v.frame_wf(g));
    }
    assert forall|u: int| 0 <= u < w.systems.len() implies #[trigger] w.system_wf(u) by {
        assert(v.system_wf(u));
        let sw = w.systems[u];
        assert forall|j: int| 0 <= j < sw.links.len() implies w.link_wf(#[trigger] sw.links[j]) by {
            if u != p || j != i {
                assert(v.link_wf(v.systems[u].links[j]));
            }
        }
        let fs = sw.frames;
        assert forall|x: int, y: int|
            0 <= x < fs.len() && 0 <= y < fs.len() && x != y implies #[trigger] w.frames[fs[x]].name
                != #[trigger] w.frames[fs[y]].name by {
            assert(v.frames[fs[x]].name != v.frames[fs[y]].name);
        }
    }
}

pub(crate) proof fn lemma_exchange_wf(v: SystemView, a: int, b: int)
    requires
        v.wf(),
        v.has_frame(a),
        v.has_frame(b),
    ensures
        v.exchange(a, b).wf(),
{
    let w = v.exchange(a, b);
    assert(v.frame_wf(a));
    assert(v.frame_wf(b));
    assert forall|g: int| 0 <= g < w.frames.len() implies #[trigger] w.frame_wf(g) by {
        assert(v.frame_wf(g));
        if g != a && g != b {
            if let Some(Content::System(t)) = v.frames[g].content {
                assert(v.system_wf(t as int));
                if let Some(Content::System(x)) = v.frames[a].content {
                    assert(x != t);
                }
                if let Some(Content::System(y)) = v.frames[b].content {
                    assert(y != t);
                }
            }
        }
    }
    assert forall|u: int| 0 <= u < w.systems.len() implies #[trigger] w.system_wf(u) by {
        assert(v.system_wf(u));
        let sw = w.systems[u];
        assert(sw.frames == v.systems[u].frames);
        assert(sw.links == v.systems[u].links);
        match sw.frame {
            Some(g) => {
                if g != a && g != b {
                    assert(v.systems[u].frame == Some(g));
                    assert(w.frames[g] == v.frames[g]);
                } else if !holds_system(w.frames[g].content, u) {
                    assert(v.systems[u].frame == Some(g));
                    assert(holds_system(v.frames[g].content, u));
                    if g == a {
                        assert(holds_system(w.frames[b].content, u));
                        assert(w.systems[u].frame == Some(b));
                    } else {
                        assert(holds_system(w.frames[a].content, u));
                        assert(w.systems[u].frame == Some(a));
                    }
                }
            },
            None => {},
        }
        assert forall|j: int| 0 <= j < sw.frames.len() implies w.has_frame(#[trigger] sw.frames[j])
            && w.frames[sw.frames[j]].parent == u by {
            assert(sw.frames[j] == v.systems[u].frames[j]);
        }
        assert forall|j: int| 0 <= j < sw.links.len() implies w.link_wf(#[trigger] sw.links[j]) by {
            assert(v.link_wf(v.systems[u].links[j]));
        }
        let fs = sw.frames;
        assert forall|x: int, y: int|
            0 <= x < fs.len() && 0 <= y < fs.len() && x != y implies #[trigger] w.frames[fs[x]].name
                != #[trigger] w.frames[fs[y]].name by {
            assert(v.frames[fs[x]].name != v.frames[fs[y]].name);
        }
    }
}

pub(crate) proof fn lemma_flags_wf(v: SystemView, f: int, scheduled: bool, running: bool)
    requires
        v.wf(),
        v.has_frame(f),
    ensures
        v.with_flags(f, scheduled, running).wf(),
        v.same_shape(v.with_flags(f, scheduled, running)),
        v.targets_resolve() ==> v.with_flags(f, scheduled, running).targets_resolve(),
{
    let w = v.with_flags(f, scheduled, running);
    assert forall|g: int| 0 <= g < w.frames.len() implies #[trigger] w.frame_wf(g) by {
        assert(v.frame_wf(g));
    }
    assert forall|u: int| 0 <= u < w.systems.len() implies #[trigger] w.system_wf(u) by {
        assert(v.system_wf(u));
        let sw = w.systems[u];
        assert forall|j: int| 0 <= j < sw.links.len() implies w.link_wf(#[trigger] sw.links[j]) by {
            assert(v.link_wf(v.systems[u].links[j]));
        }
        let fs = sw.frames;
        assert forall|x: int, y: int|
            0 <= x < fs.len() && 0 <= y < fs.len() && x != y implies #[trigger] w.frames[fs[x]].name
                != #[trigger] w.frames[fs[y]].name by {
            assert(v.frames[fs[x]].name != v.frames[fs[y]].name);
        }
    }
    assert(v.same_shape(w));
    if v.targets_resolve() {
        lemma_shape_targets(v, w);
    }
}

pub(crate) proof fn lemma_first_named_skip(v: SystemView, fs: Seq<int>, name: Seq<char>, i: int)
    requires
        0 <= i <= fs.len(),
        forall|j: int| 0 <= j < i ==> v.frames[#[trigger] fs[j]].name != name,
    ensures
        v.first_named(fs, name) == v.first_named(fs.subrange(i, fs.len() as int), name),
    decreases i,
{
    if i > 0 {
        assert(fs.drop_first().subrange(i - 1, fs.drop_first().len() as int) =~= fs.subrange(i, fs.len() as int));
        assert forall|j: int| 0 <= j < i - 1 implies v.frames[#[trigger] fs.drop_first()[j]].name != name by {
            assert(fs.drop_first()[j] == fs[j + 1]);
        }
        lemma_first_named_skip(v, fs.drop_first(), name, i - 1);
    } else {
        assert(fs.subrange(0, fs.len() as int) =~= fs);
    }
}

pub(crate) proof fn lemma_first_named_append(v: SystemView, a: Seq<int>, b: Seq<int>, name: Seq<char>)
    ensures
        v.first_named(a + b, name) == match v.first_named(a, name) {
            Some(x) => Some(x),
            None => v.first_named(b, name),
        },
    decreases a.len(),
{
    if a.len() == 0 {
        assert(a + b =~= b);
    } else {
        assert((a + b).drop_first() =~= a.drop_first() + b);
        lemma_first_named_append(v, a.drop_first(), b, name);
    }
}

/// What a frame holds once given `object`, when the arena stores `n`

pub(crate) proof fn lemma_with_content_wf(v: SystemView, f: int, c: Option<Content>)
    requires
        v.wf(),
        v.has_frame(f),
        v.content_ok(c, v.frames[f].parent),
    ensures
        v.with_content(f, c).wf(),
{
    let w = v.with_content(f, c);
    assert(v.frame_wf(f));
    assert forall|g: int| 0 <= g < w.frames.len() implies #[trigger] w.frame_wf(g) by {
        assert(v.frame_wf(g));
        if g != f {
            if let Some(Content::System(t)) = v.frames[g].content {
                assert(v.system_wf(t as int));
                if let Some(Content::System(t0)) = v.frames[f].content {
                    assert(t0 != t);
                }
            }
        }
    }
    assert forall|u: int| 0 <= u < w.systems.len() implies #[trigger] w.system_wf(u) by {
        assert(v.system_wf(u));
        let sy = w.systems[u];
        assert(sy.frames == v.systems[u].frames);
        match w.systems[u].frame {
            Some(g) => {
                if g == f {
                    assert(w.frames[g].content == c);
                    if !holds_system(c, u) {
                        assert(v.systems[u].frame == Some(g));
                        assert(holds_system(v.frames[f].content, u));
                        assert(w.systems[u].frame is None);
                    }
                } else {
                    assert(v.systems[u].frame == Some(g));
                    assert(w.frames[g] == v.frames[g]);
                }
                assert(w.has_frame(g) && holds_system(w.frames[g].content, u));
            },
            None => {},
        }
        assert forall|j: int| 0 <= j < sy.frames.len() implies w.has_frame(#[trigger] sy.frames[j])
            && w.frames[sy.frames[j]].parent == u by {
            assert(sy.frames[j] == v.systems[u].frames[j]);
        }
        assert forall|j: int| 0 <= j < sy.links.len() implies w.link_wf(#[trigger] sy.links[j]) by {
            assert(v.link_wf(v.systems[u].links[j]));
        }
        let fs = sy.frames;
        assert forall|i: int, j: int|
            0 <= i < fs.len() && 0 <= j < fs.len() && i != j implies #[trigger] w.frames[fs[i]].name
                != #[trigger] w.frames[fs[j]].name by {
            assert(v.frames[fs[i]].name != v.frames[fs[j]].name);
        }
    }
}

pub(crate) proof fn lemma_with_link_wf(v: SystemView, s: int, l: LinkView)
    requires
        v.wf(),
        v.has_system(s),
        v.link_wf(l),
    ensures
        v.with_link(s, l).wf(),
{
    let w = v.with_link(s, l);
    assert forall|g: int| 0 <= g < w.frames.len() implies #[trigger] w.frame_wf(g) by {
        assert(v.frame_wf(g));
    }
    assert forall|u: int| 0 <= u < w.systems.len() implies #[trigger] w.system_wf(u) by {
        assert(v.system_wf(u));
        let sy = w.systems[u];
        assert forall|j: int| 0 <= j < sy.links.len() implies w.link_wf(#[trigger] sy.links[j]) by {
            if u != s || j < sy.links.len() - 1 {
                assert(v.link_wf(v.systems[u].links[j]));
            }
        }
        let fs = sy.frames;
        assert forall|i: int, j: int|
            0 <= i < fs.len() && 0 <= j < fs.len() && i != j implies #[trigger] w.frames[fs[i]].name
                != #[trigger] w.frames[fs[j]].name by {
            assert(v.frames[fs[i]].name != v.frames[fs[j]].name);
        }
    }
}

/// Every frame that an endpoint resolves to is a frame of the arena.
pub(crate) proof fn lemma_resolve_valid(v: SystemView, e: EndView)
    requires
        v.wf(),
        v.has_frame(e.anchor()),
    ensures
        v.resolve(e) matches Some(t) ==> v.has_frame(t),
{
    if let EndView::Symbolic(g, name) = e {
        assert(v.frame_wf(g));
        if let Some(Content::System(c)) = v.frames[g].content {
            lemma_found_frame(v, c as int, name);
        }
    }
}

pub(crate) proof fn lemma_then_targets_valid(v: SystemView, links: Seq<LinkView>, f: int)
    requires
        v.wf(),
        forall|j: int| 0 <= j < links.len() ==> v.link_wf(#[trigger] links[j]),
    ensures
        forall|i: int| 0 <= i < v.then_targets(links, f).len() ==> v.has_frame(
            #[trigger] v.then_targets(links, f)[i],
        ),
    decreases links.len(),
{
    if links.len() > 0 {
        let rest = links.drop_last();
        assert forall|j: int| 0 <= j < rest.len() implies v.link_wf(#[trigger] rest[j]) by {
            assert(rest[j] == links[j]);
        }
        lemma_then_targets_valid(v, rest, f);
        assert(v.link_wf(links[links.len() - 1]));
        lemma_resolve_valid(v, links.last().b);
        let before = v.then_targets(rest, f);
        let all = v.then_targets(links, f);
        assert forall|i: int| 0 <= i < all.len() implies v.has_frame(#[trigger] all[i]) by {
            if i < before.len() {
                assert(all[i] == before[i]);
            }
        }
    }
}

pub(crate) proof fn lemma_fired_from_valid(v: SystemView, p: int, f: int, fuel: nat)
    requires
        v.wf(),
        v.has_system(p),
    ensures
        forall|i: int| 0 <= i < v.fired_from(p, f, fuel).len() ==> v.has_frame(
            #[trigger] v.fired_from(p, f, fuel)[i],
        ),
    decreases fuel,
{
    assert(v.system_wf(p));
    let here = v.then_targets(v.systems[p].links, f);
    lemma_then_targets_valid(v, v.systems[p].links, f);
    if fuel > 0 && v.systems[p].frame is Some {
        let x = v.systems[p].frame.unwrap();
        assert(v.frame_wf(x));
        let q = v.frames[x].parent;
        lemma_fired_from_valid(v, q, f, (fuel - 1) as nat);
        let rest = v.fired_from(q, f, (fuel - 1) as nat);
        assert forall|i: int| 0 <= i < (here + rest).len() implies v.has_frame(#[trigger] (here + rest)[i]) by {
            if i >= here.len() {
                assert((here + rest)[i] == rest[i - here.len()]);
            }
        }
    }
}

/// The frames that a completion schedules are frames of the arena.
pub(crate) proof fn lemma_fired_valid(v: SystemView, f: int)
    requires
        v.wf(),
        v.has_frame(f),
    ensures
        forall|i: int| 0 <= i < v.fired(f).len() ==> v.has_frame(#[trigger] v.fired(f)[i]),
{
    assert(v.frame_wf(f));
    lemma_fired_from_valid(v, v.frames[f].parent, f, v.systems.len());
}

/// Endpoints stand for the same frames in arenas of the same shape.
pub(crate) proof fn lemma_shape_resolve(v: SystemView, w: SystemView, e: EndView)
    requires
        v.same_shape(w),
        v.wf(),
        v.has_frame(e.anchor()),
    ensures
        v.resolve(e) == w.resolve(e),
{
    if let EndView::Symbolic(g, name) = e {
        assert(v.frame_wf(g));
        assert(v.frames[g].content == w.frames[g].content);
        if let Some(Content::System(c)) = v.frames[g].content {
            lemma_shape_find(v, w, c as int, name);
        }
    }
}

/// Every `Then` link whose source end stands for a frame has a target end
/// that stands for one too.
pub(crate) proof fn lemma_shape_targets(v: SystemView, w: SystemView)
    requires
        v.same_shape(w),
        v.wf(),
        forall|p: int| 0 <= p < v.systems.len() ==> (#[trigger] w.systems[p]).links == v.systems[p].links,
        v.targets_resolve(),
    ensures
        w.targets_resolve(),
{
    assert forall|p: int, j: int|
        0 <= p < w.systems.len() && 0 <= j < w.systems[p].links.len() && (#[trigger] w.systems[p].links[j]).relation
            == Relation::Then && w.resolve(w.systems[p].links[j].a) is Some implies w.resolve(
        w.systems[p].links[j].b,
    ) is Some by {
        let l = v.systems[p].links[j];
        assert(w.systems[p].links[j] == l);
        assert(v.system_wf(p));
        assert(v.link_wf(l));
        lemma_shape_resolve(v, w, l.a);
        lemma_shape_resolve(v, w, l.b);
    }
}

} // verus!
