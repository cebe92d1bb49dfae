use vstd::prelude::*;

use crate::model::{holds_system, Content, EndView, LinkView, SystemView};
use crate::model_lemmas::lemma_fired_valid;
use crate::task_loop::{complete, consistent, enqueue, enqueue_all, TaskLoopView};

verus! {

/// In a task loop consistent with the arena, a scheduled frame sits in the
/// queue exactly once. Every operation of the task loop keeps the two
/// consistent (see `edit_keeps_queue` for the operations on the arena).
pub proof fn scheduled_queued_once(sv: SystemView, tv: TaskLoopView, f: int)
    requires
        consistent(sv, tv),
        sv.has_frame(f),
        sv.frames[f].scheduled,
    ensures
        exists|i: int|
            0 <= i < tv.tasks.len() && tv.tasks[i] == f && forall|j: int|
                0 <= j < tv.tasks.len() && #[trigger] tv.tasks[j] == f ==> j == i,
{
    assert(sv.frames[f].scheduled <==> tv.tasks.contains(f));
    let i = choose|i: int| 0 <= i < tv.tasks.len() && tv.tasks[i] == f;
    assert forall|j: int| 0 <= j < tv.tasks.len() && #[trigger] tv.tasks[j] == f implies j == i by {
        if j != i {
            assert(tv.tasks[i] != tv.tasks[j]);
        }
    }
}

/// A task loop with nothing queued or suspended is consistent with a
/// well-formed arena whose `Then` targets can all be found and in which no
/// frame is scheduled, such as one that a
/// new system grew without scheduling.
pub proof fn fresh_loop_consistent(sv: SystemView, tv: TaskLoopView)
    requires
        sv.wf(),
        sv.targets_resolve(),
        forall|f: int| 0 <= f < sv.frames.len() ==> !#[trigger] sv.frames[f].scheduled,
        tv.tasks.len() == 0,
        tv.background == Map::<u64, usize>::empty(),
    ensures
        consistent(sv, tv),
{
}

/// A change to the arena that keeps it well formed with every `Then` target
/// found, keeps the flags of the
/// frames it had and adds only frames neither scheduled nor running keeps a
/// task loop
/// consistent with it. Making frames, adopting, linking and swapping are
/// such changes.
pub proof fn edit_keeps_queue(sv: SystemView, sv2: SystemView, tv: TaskLoopView)
    requires
        consistent(sv, tv),
        sv2.wf(),
        sv2.targets_resolve(),
        sv2.frames.len() >= sv.frames.len(),
        forall|f: int|
            0 <= f < sv.frames.len() ==> #[trigger] sv2.frames[f].scheduled == sv.frames[f].scheduled
                && sv2.frames[f].running == sv.frames[f].running,
        forall|f: int|
            sv.frames.len() <= f < sv2.frames.len() ==> !#[trigger] sv2.frames[f].scheduled
                && !sv2.frames[f].running,
    ensures
        consistent(sv2, tv),
{
    assert forall|f: int| sv2.has_frame(f) implies !(#[trigger] sv2.frames[f].running && sv2.frames[f].scheduled) by {
        if f < sv.frames.len() {
            assert(!(sv.frames[f].running && sv.frames[f].scheduled));
        }
    }
    assert forall|id: u64| #[trigger] tv.background.contains_key(id) implies id <= tv.counter && sv2.has_frame(
        tv.background[id] as int,
    ) && sv2.frames[tv.background[id] as int].running by {
        let g = tv.background[id] as int;
        assert(sv.frames[g].running);
        assert(sv2.frames[g].scheduled == sv.frames[g].scheduled);
    }
    assert forall|f: int| sv2.has_frame(f) implies (#[trigger] sv2.frames[f].scheduled <==> tv.tasks.contains(f)) by {
        if f < sv.frames.len() {
            assert(sv.frames[f].scheduled <==> tv.tasks.contains(f));
        } else if tv.tasks.contains(f) {
            let i = choose|i: int| 0 <= i < tv.tasks.len() && tv.tasks[i] == f;
            assert(sv.has_frame(tv.tasks[i]));
        }
    }
}

/// Making a frame, adopting and linking leave the flags of existing frames
/// alone; a new frame is not scheduled.
pub proof fn edits_keep_flags(v: SystemView, s: int, c: Option<Content>, name: Seq<char>, f: int)
    requires
        v.has_system(s),
        v.has_frame(f),
    ensures
        v.with_frame(s, c, name).frames[f].scheduled == v.frames[f].scheduled,
        v.with_frame(s, c, name).frames[f].running == v.frames[f].running,
        !v.with_frame(s, c, name).frames[v.frames.len() as int].scheduled,
        !v.with_frame(s, c, name).frames[v.frames.len() as int].running,
        v.with_content(f, c).frames[f].scheduled == v.frames[f].scheduled,
        v.with_content(f, c).frames[f].running == v.frames[f].running,
        v.with_object().frames == v.frames,
        forall|l| #[trigger] v.with_link(s, l).frames == v.frames,
{
}

proof fn rewrite_keeps_frames(v: SystemView, shape: SystemView, s: int, p: int, heal: bool, fuel: nat)
    ensures
        v.rewrite_from(shape, s, p, heal, fuel).frames == v.frames,
    decreases fuel,
{
    let w = v.rewrite_at(shape, s, p, heal);
    if fuel > 0 && shape.systems[p].frame is Some {
        rewrite_keeps_frames(w, shape, s, shape.frames[shape.systems[p].frame.unwrap()].parent, heal, (fuel - 1) as nat);
    }
}

proof fn cut_heal_keep_frames(v: SystemView, f: int)
    ensures
        v.cut_for(f).frames == v.frames,
        v.heal_for(f).frames == v.frames,
{
    if let Some(Content::System(t)) = v.frames[f].content {
        rewrite_keeps_frames(v, v, t as int, v.up(t as int).unwrap(), false, v.systems.len());
        rewrite_keeps_frames(v, v, t as int, v.up(t as int).unwrap(), true, v.systems.len());
    }
}

/// A swap leaves every frame's flags alone.
pub proof fn swap_keeps_flags(v: SystemView, a: int, b: int, f: int)
    requires
        v.has_frame(a),
        v.has_frame(b),
        v.has_frame(f),
    ensures
        v.swapped(a, b).frames.len() == v.frames.len(),
        v.swapped(a, b).frames[f].scheduled == v.frames[f].scheduled,
        v.swapped(a, b).frames[f].running == v.frames[f].running,
{
    let v1 = v.cut_for(a);
    cut_heal_keep_frames(v, a);
    let v2 = v1.cut_for(b);
    cut_heal_keep_frames(v1, b);
    let v3 = v2.exchange(a, b);
    cut_heal_keep_frames(v3, a);
    let v4 = v3.heal_for(a);
    cut_heal_keep_frames(v4, b);
}

/// The frames that one system owns have pairwise distinct names.
pub proof fn sibling_names_distinct(v: SystemView, s: int, i: int, j: int)
    requires
        v.wf(),
        v.has_system(s),
        0 <= i < v.systems[s].frames.len(),
        0 <= j < v.systems[s].frames.len(),
        i != j,
    ensures
        v.frames[v.systems[s].frames[i]].name != v.frames[v.systems[s].frames[j]].name,
{
    assert(v.system_wf(s));
}

/// Scheduling a frame `k >= 1` times in a row has the effect of scheduling
/// it once.
pub proof fn schedule_idempotent(sv: SystemView, tv: TaskLoopView, f: int, k: nat)
    requires
        sv.has_frame(f),
        k >= 1,
    ensures
        enqueue_all(sv, tv, Seq::new(k, |i: int| f)) == enqueue(sv, tv, f),
    decreases k,
{
    let once = enqueue(sv, tv, f);
    if !(sv.frames[f].scheduled || sv.frames[f].running) {
        assert(once.0.frames[f].scheduled);
    }
    assert(enqueue(once.0, once.1, f) == once);
    let fs = Seq::new(k, |i: int| f);
    assert(fs.last() == f);
    if k == 1 {
        assert(fs.drop_last() =~= Seq::<int>::empty());
        assert(enqueue_all(sv, tv, fs.drop_last()) == (sv, tv));
    } else {
        assert(fs.drop_last() =~= Seq::new((k - 1) as nat, |i: int| f));
        schedule_idempotent(sv, tv, f, (k - 1) as nat);
        assert(enqueue_all(sv, tv, fs.drop_last()) == once);
    }
    assert(enqueue_all(sv, tv, fs) == {
        let (s1, t1) = enqueue_all(sv, tv, fs.drop_last());
        enqueue(s1, t1, fs.last())
    });
}

/// Swapping the contents of two frames that hold no nested system, twice,
/// gives back the arena.
pub proof fn swap_leaves_twice(v: SystemView, a: int, b: int)
    requires
        v.has_frame(a),
        v.has_frame(b),
        !(v.frames[a].content matches Some(Content::System(_))),
        !(v.frames[b].content matches Some(Content::System(_))),
    ensures
        v.swapped(a, b).swapped(a, b) == v,
{
    let w = v.swapped(a, b);
    assert(w == v.exchange(a, b));
    assert(w.swapped(a, b) == w.exchange(a, b));
    assert(w.swapped(a, b).frames =~= v.frames);
}

/// Swapping two frames that hold no nested system leaves every system's
/// links as they were: a link whose endpoints were direct stays direct.
pub proof fn swap_leaves_keeps_links(v: SystemView, a: int, b: int)
    requires
        v.has_frame(a),
        v.has_frame(b),
        !(v.frames[a].content matches Some(Content::System(_))),
        !(v.frames[b].content matches Some(Content::System(_))),
    ensures
        v.swapped(a, b).systems == v.systems,
{
    assert(v.swapped(a, b) == v.exchange(a, b));
}

/// Healing for a moved system leaves no reference by name below its frame
/// that a search below the system would find.
pub proof fn heal_leaves_only_unfound_names(v: SystemView, s: int, e: EndView)
    ensures
        v.heal_end(s, e) matches EndView::Symbolic(g, name) ==> v.systems[s].frame != Some(g) || v.find(
            s,
            name,
        ) is None,
{
}

proof fn enqueue_all_schedules(sv: SystemView, tv: TaskLoopView, fs: Seq<int>)
    requires
        forall|i: int| 0 <= i < fs.len() ==> sv.has_frame(#[trigger] fs[i]),
    ensures
        enqueue_all(sv, tv, fs).0.frames.len() == sv.frames.len(),
        forall|g: int| sv.has_frame(g) ==> #[trigger] enqueue_all(sv, tv, fs).0.frames[g].running == sv.frames[g].running,
        forall|g: int| sv.has_frame(g) && sv.frames[g].scheduled ==> #[trigger] enqueue_all(sv, tv, fs).0.frames[g].scheduled,
        forall|i: int|
            0 <= i < fs.len() ==> #[trigger] enqueue_all(sv, tv, fs).0.frames[fs[i]].scheduled
                || enqueue_all(sv, tv, fs).0.frames[fs[i]].running,
    decreases fs.len(),
{
    if fs.len() > 0 {
        let rest = fs.drop_last();
        assert forall|i: int| 0 <= i < rest.len() implies sv.has_frame(#[trigger] rest[i]) by {
            assert(rest[i] == fs[i]);
        }
        enqueue_all_schedules(sv, tv, rest);
        let (s1, t1) = enqueue_all(sv, tv, rest);
        let s2 = enqueue(s1, t1, fs.last()).0;
        assert forall|i: int| 0 <= i < fs.len() implies #[trigger] s2.frames[fs[i]].scheduled
            || s2.frames[fs[i]].running by {
            if i < fs.len() - 1 {
                assert(rest[i] == fs[i]);
                assert(s1.frames[fs[i]].scheduled || s1.frames[fs[i]].running);
            }
        }
    }
}

/// When a frame completes, every frame that its `Then` links (in its own
/// system and in every system above) lead to is scheduled, unless it is
/// running already.
pub proof fn completion_schedules_successors(sv: SystemView, tv: TaskLoopView, f: int, g: int)
    requires
        sv.wf(),
        sv.has_frame(f),
        sv.fired(f).contains(g),
    ensures
        complete(sv, tv, f).0.frames[g].scheduled || complete(sv, tv, f).0.frames[g].running,
{
    lemma_fired_valid(sv, f);
    let s1 = sv.with_flags(f, sv.frames[f].scheduled, false);
    let i = choose|i: int| 0 <= i < sv.fired(f).len() && sv.fired(f)[i] == g;
    enqueue_all_schedules(s1, tv, sv.fired(f));
}

/// A frame among its own successors is scheduled again each time it
/// completes, so a loop that runs it never falls idle.
pub proof fn self_successor_requeued(sv: SystemView, tv: TaskLoopView, f: int)
    requires
        sv.wf(),
        sv.has_frame(f),
        sv.fired(f).contains(f),
    ensures
        complete(sv, tv, f).0.frames[f].scheduled,
        consistent(sv, tv) && crate::task_loop::not_suspended(tv, f) ==> complete(
            sv,
            tv,
            f,
        ).1.tasks.contains(f),
{
    lemma_fired_valid(sv, f);
    let s1 = sv.with_flags(f, sv.frames[f].scheduled, false);
    let i = choose|i: int| 0 <= i < sv.fired(f).len() && sv.fired(f)[i] == f;
    enqueue_all_schedules(s1, tv, sv.fired(f));
    assert(!s1.frames[f].running);
    if consistent(sv, tv) && crate::task_loop::not_suspended(tv, f) {
        crate::task_loop::lemma_complete(sv, tv, f);
        let (s2, t2) = complete(sv, tv, f);
        assert(s2.frames[f].scheduled <==> t2.tasks.contains(f));
    }
}

proof fn rewrite_unchanged(v: SystemView, shape: SystemView, s: int, p: int, heal: bool, fuel: nat)
    requires
        shape.wf(),
        shape.has_system(p),
        v.systems.len() == shape.systems.len(),
        forall|q: int, j: int|
            0 <= q < v.systems.len() && 0 <= j < v.systems[q].links.len() ==> (if heal {
                shape.heal_link(s, #[trigger] v.systems[q].links[j])
            } else {
                shape.cut_link(s, v.systems[q].links[j])
            }) == v.systems[q].links[j],
    ensures
        v.rewrite_from(shape, s, p, heal, fuel) == v,
    decreases fuel,
{
    let w = v.rewrite_at(shape, s, p, heal);
    let sy = v.systems[p];
    assert(w.systems[p].links =~= sy.links);
    assert(w.systems =~~= v.systems);
    assert(w == v);
    if fuel > 0 && shape.systems[p].frame is Some {
        assert(shape.system_wf(p));
        assert(shape.frame_wf(shape.systems[p].frame.unwrap()));
        rewrite_unchanged(v, shape, s, shape.frames[shape.systems[p].frame.unwrap()].parent, heal, (fuel - 1) as nat);
    }
}

/// Cutting or healing for the system that frame `f` holds changes nothing
/// when every link endpoint is a frame outside it.
proof fn rewrite_for_unchanged(v: SystemView, f: int)
    requires
        v.wf(),
        v.has_frame(f),
        v.links_avoid(f),
    ensures
        v.cut_for(f) == v,
        v.heal_for(f) == v,
{
    if let Some(Content::System(t)) = v.frames[f].content {
        assert(v.frame_wf(f));
        assert(v.system_wf(t as int));
        let t = t as int;
        assert forall|q: int, j: int|
            0 <= q < v.systems.len() && 0 <= j < v.systems[q].links.len() implies v.cut_link(
                t,
                #[trigger] v.systems[q].links[j],
            ) == v.systems[q].links[j] && v.heal_link(t, v.systems[q].links[j]) == v.systems[q].links[j] by {
            assert(v.end_avoids(f, v.systems[q].links[j].a));
            assert(v.end_avoids(f, v.systems[q].links[j].b));
        }
        rewrite_unchanged(v, v, t, v.up(t).unwrap(), false, v.systems.len());
        rewrite_unchanged(v, v, t, v.up(t).unwrap(), true, v.systems.len());
    }
}

/// Healing changes nothing when every link endpoint is a frame itself.
proof fn heal_for_direct(v: SystemView, f: int)
    requires
        v.wf(),
        v.has_frame(f),
        forall|q: int, j: int|
            0 <= q < v.systems.len() && 0 <= j < v.systems[q].links.len() ==> (#[trigger] v.systems[q].links[j]).a is Direct
                && v.systems[q].links[j].b is Direct,
    ensures
        v.heal_for(f) == v,
{
    if let Some(Content::System(t)) = v.frames[f].content {
        assert(v.frame_wf(f));
        assert(v.system_wf(t as int));
        rewrite_unchanged(v, v, t as int, v.up(t as int).unwrap(), true, v.systems.len());
    }
}

/// Exchanging two frames' contents changes the holder of the systems they
/// hold and nothing else about any system.
proof fn exchange_systems(v: SystemView, a: int, b: int)
    requires
        v.wf(),
        v.has_frame(a),
        v.has_frame(b),
    ensures
        v.exchange(a, b).systems.len() == v.systems.len(),
        forall|u: int| 0 <= u < v.systems.len() ==> (#[trigger] v.exchange(a, b).systems[u]).links == v.systems[u].links
            && v.exchange(a, b).systems[u].frames == v.systems[u].frames,
        forall|u: int|
            0 <= u < v.systems.len() && !holds_system(v.frames[a].content, u) && !holds_system(
                v.frames[b].content,
                u,
            ) ==> #[trigger] v.exchange(a, b).systems[u] == v.systems[u],
{
    assert(v.frame_wf(a));
    assert(v.frame_wf(b));
    let fa = v.frames[a];
    let fb = v.frames[b];
    let frames1 = v.frames.update(
        a,
        crate::model::FrameView { parent: fa.parent, name: fa.name, content: fb.content, scheduled: fa.scheduled, running: fa.running },
    );
    let frames2 = frames1.update(
        b,
        crate::model::FrameView { parent: fb.parent, name: fb.name, content: fa.content, scheduled: fb.scheduled, running: fb.running },
    );
    let m = SystemView { frames: frames2, systems: v.systems, n_objects: v.n_objects };
    assert(holds_system(fb.content, 0) ==> false);
    if a != b {
        assert(frames2[a].content == fb.content);
    }
    assert(frames2[b].content == fa.content);
    let m1 = m.claim(a);
    assert(m1.systems.len() == v.systems.len());
    let m2 = m1.claim(b);
    assert(m2.systems.len() == v.systems.len());
    assert(m2 == v.exchange(a, b));
}

/// Exchanging two frames' contents moves only the systems they hold: a
/// system that lies outside both moved systems stays outside both.
proof fn exchange_keeps_outside(v: SystemView, a: int, b: int, x: int, m: int, fuel: nat)
    requires
        v.wf(),
        v.has_frame(a),
        v.has_frame(b),
        v.has_system(x),
        v.has_system(m),
        forall|t: int| (holds_system(v.frames[a].content, t) || holds_system(v.frames[b].content, t))
            ==> !#[trigger] v.sys_within(x, t, fuel),
        holds_system(v.frames[a].content, m) || holds_system(v.frames[b].content, m),
    ensures
        !v.exchange(a, b).sys_within(x, m, fuel),
    decreases fuel,
{
    let e = v.exchange(a, b);
    assert(!v.sys_within(x, m, fuel));
    assert(x != m);
    if fuel > 0 {
        assert(v.system_wf(x));
        exchange_systems(v, a, b);
        assert(!holds_system(v.frames[a].content, x)) by {
            if holds_system(v.frames[a].content, x) {
                assert(v.sys_within(x, x, fuel));
            }
        }
        assert(!holds_system(v.frames[b].content, x)) by {
            if holds_system(v.frames[b].content, x) {
                assert(v.sys_within(x, x, fuel));
            }
        }
        assert(e.systems[x] == v.systems[x]);
        if let Some(h) = v.systems[x].frame {
            assert(v.frame_wf(h));
            assert(e.frames[h].parent == v.frames[h].parent);
            let u = v.frames[h].parent;
            assert forall|t: int| (holds_system(v.frames[a].content, t) || holds_system(v.frames[b].content, t))
                implies !#[trigger] v.sys_within(u, t, (fuel - 1) as nat) by {
                assert(!v.sys_within(x, t, fuel));
            }
            exchange_keeps_outside(v, a, b, u, m, (fuel - 1) as nat);
        }
    }
}

/// After an exchange, link endpoints that were frames outside both moved
/// systems still are.
proof fn exchange_keeps_links_outside(v: SystemView, a: int, b: int)
    requires
        v.wf(),
        v.has_frame(a),
        v.has_frame(b),
        v.links_avoid(a),
        v.links_avoid(b),
    ensures
        v.exchange(a, b).wf(),
        v.exchange(a, b).links_avoid(a),
        v.exchange(a, b).links_avoid(b),
{
    let e = v.exchange(a, b);
    crate::model_lemmas::lemma_exchange_wf(v, a, b);
    exchange_systems(v, a, b);
    assert(v.frame_wf(a));
    assert(v.frame_wf(b));
    assert(e.frames[a].content == v.frames[b].content);
    assert(e.frames[b].content == v.frames[a].content);
    assert forall|q: int, j: int| 0 <= q < e.systems.len() && 0 <= j < e.systems[q].links.len() implies e.end_avoids(
        a,
        (#[trigger] e.systems[q].links[j]).a,
    ) && e.end_avoids(a, e.systems[q].links[j].b) && e.end_avoids(b, e.systems[q].links[j].a) && e.end_avoids(
        b,
        e.systems[q].links[j].b,
    ) by {
        let l = v.systems[q].links[j];
        assert(e.systems[q].links[j] == l);
        assert(v.end_avoids(a, l.a) && v.end_avoids(a, l.b) && v.end_avoids(b, l.a) && v.end_avoids(b, l.b));
        assert(v.link_wf(l)) by {
            assert(v.system_wf(q));
        }
        assert forall|x: int| v.has_frame(x) && v.end_avoids(a, EndView::Direct(x)) && v.end_avoids(b, EndView::Direct(x))
            implies e.end_avoids(a, EndView::Direct(x)) && e.end_avoids(b, EndView::Direct(x)) by {
            assert(v.frame_wf(x));
            let px = v.frames[x].parent;
            assert(e.frames[x].parent == px);
            assert forall|t: int| (holds_system(v.frames[a].content, t) || holds_system(v.frames[b].content, t))
                implies !#[trigger] v.sys_within(px, t, v.systems.len()) by {
            }
            if let Some(Content::System(ta)) = e.frames[a].content {
                exchange_keeps_outside(v, a, b, px, ta as int, v.systems.len());
            }
            if let Some(Content::System(tb)) = e.frames[b].content {
                exchange_keeps_outside(v, a, b, px, tb as int, v.systems.len());
            }
        }
    }
}

/// When every link endpoint is a frame itself, outside the systems that
/// frames `a` and `b` hold, a swap only exchanges their contents: every link
/// stays as it was, its endpoints direct.
pub proof fn swap_moves_only_contents(v: SystemView, a: int, b: int)
    requires
        v.wf(),
        v.has_frame(a),
        v.has_frame(b),
        v.links_avoid(a),
        v.links_avoid(b),
    ensures
        v.swapped(a, b) == v.exchange(a, b),
        forall|q: int| 0 <= q < v.systems.len() ==> (#[trigger] v.swapped(a, b).systems[q]).links == v.systems[q].links,
{
    rewrite_for_unchanged(v, a);
    rewrite_for_unchanged(v, b);
    let e = v.exchange(a, b);
    exchange_keeps_links_outside(v, a, b);
    exchange_systems(v, a, b);
    heal_for_direct(e, a);
    heal_for_direct(e, b);
}

/// Swapping the contents of two frames twice gives back the arena when
/// every link endpoint is a frame itself, outside the systems the two frames
/// hold.
pub proof fn swap_twice_when_links_stay_outside(v: SystemView, a: int, b: int)
    requires
        v.wf(),
        v.has_frame(a),
        v.has_frame(b),
        v.links_avoid(a),
        v.links_avoid(b),
    ensures
        v.swapped(a, b).swapped(a, b) == v,
{
    swap_moves_only_contents(v, a, b);
    let e = v.exchange(a, b);
    exchange_keeps_links_outside(v, a, b);
    swap_moves_only_contents(e, a, b);
    let back = e.exchange(a, b);
    assert(v.frame_wf(a));
    assert(v.frame_wf(b));
    assert(back.frames =~= v.frames);
    assert(back.systems =~~= v.systems);
}

proof fn then_targets_direct(v: SystemView, w: SystemView, links: Seq<LinkView>, f: int)
    requires
        forall|j: int| 0 <= j < links.len() ==> (#[trigger] links[j]).a is Direct && links[j].b is Direct,
    ensures
        v.then_targets(links, f) == w.then_targets(links, f),
    decreases links.len(),
{
    if links.len() > 0 {
        let rest = links.drop_last();
        assert forall|j: int| 0 <= j < rest.len() implies (#[trigger] rest[j]).a is Direct && rest[j].b is Direct by {
            assert(rest[j] == links[j]);
        }
        then_targets_direct(v, w, rest, f);
        assert(links[links.len() - 1].a is Direct && links[links.len() - 1].b is Direct);
    }
}

proof fn fired_from_outside(v: SystemView, a: int, b: int, p: int, f: int, fuel: nat)
    requires
        v.wf(),
        v.has_frame(a),
        v.has_frame(b),
        v.has_system(p),
        v.links_avoid(a),
        forall|t: int| (holds_system(v.frames[a].content, t) || holds_system(v.frames[b].content, t))
            ==> !#[trigger] v.sys_within(p, t, fuel),
    ensures
        v.exchange(a, b).fired_from(p, f, fuel) == v.fired_from(p, f, fuel),
    decreases fuel,
{
    let e = v.exchange(a, b);
    exchange_systems(v, a, b);
    assert(!holds_system(v.frames[a].content, p)) by {
        if holds_system(v.frames[a].content, p) {
            assert(v.sys_within(p, p, fuel));
        }
    }
    assert(!holds_system(v.frames[b].content, p)) by {
        if holds_system(v.frames[b].content, p) {
            assert(v.sys_within(p, p, fuel));
        }
    }
    assert(e.systems[p] == v.systems[p]);
    let links = v.systems[p].links;
    assert forall|j: int| 0 <= j < links.len() implies (#[trigger] links[j]).a is Direct && links[j].b is Direct by {
        assert(v.end_avoids(a, v.systems[p].links[j].a));
        assert(v.end_avoids(a, v.systems[p].links[j].b));
    }
    then_targets_direct(v, e, links, f);
    if fuel > 0 {
        if let Some(h) = v.systems[p].frame {
            assert(v.system_wf(p));
            assert(v.frame_wf(h));
            assert(e.frames[h].parent == v.frames[h].parent);
            let u = v.frames[h].parent;
            assert forall|t: int| (holds_system(v.frames[a].content, t) || holds_system(v.frames[b].content, t))
                implies !#[trigger] v.sys_within(u, t, (fuel - 1) as nat) by {
                assert(!v.sys_within(p, t, fuel));
            }
            fired_from_outside(v, a, b, u, f, (fuel - 1) as nat);
        }
    }
}

/// When every link endpoint is a frame itself, outside the systems that
/// frames `a` and `b` hold, a frame outside both systems schedules the same
/// successors on completion after a swap as before it.
pub proof fn swap_keeps_successors_outside(v: SystemView, a: int, b: int, f: int)
    requires
        v.wf(),
        v.has_frame(a),
        v.has_frame(b),
        v.has_frame(f),
        v.links_avoid(a),
        v.links_avoid(b),
        v.end_avoids(a, EndView::Direct(f)),
        v.end_avoids(b, EndView::Direct(f)),
    ensures
        v.swapped(a, b).fired(f) == v.fired(f),
{
    swap_moves_only_contents(v, a, b);
    let e = v.exchange(a, b);
    exchange_systems(v, a, b);
    assert(v.frame_wf(f));
    assert(v.frame_wf(a));
    assert(v.frame_wf(b));
    let pf = v.frames[f].parent;
    assert(e.frames[f].parent == pf);
    assert forall|t: int| (holds_system(v.frames[a].content, t) || holds_system(v.frames[b].content, t))
        implies !#[trigger] v.sys_within(pf, t, v.systems.len()) by {
    }
    fired_from_outside(v, a, b, pf, f, v.systems.len());
}

} // verus!
