use crate::preprocessor::texts;
use crate::text::text_eq;
use vstd::prelude::*;

verus! {

/// The node ids of one canvas, in the order its nodes are walked, and the id
/// its next node will get.
pub struct CanvasNodes {
    pub name: String,
    pub ids: Vec<u64>,
    pub next_node_id: u64,
}

/// The node ids of a canvas as plain values.
pub struct CanvasView {
    pub name: Seq<char>,
    pub ids: Seq<u64>,
    pub next_node_id: u64,
}

impl View for CanvasNodes {
    type V = CanvasView;

    open spec fn view(&self) -> CanvasView {
        CanvasView { name: self.name@, ids: self.ids@, next_node_id: self.next_node_id }
    }
}

/// The views of some canvases.
pub open spec fn canvas_views(v: Seq<CanvasNodes>) -> Seq<CanvasView> {
    Seq::new(v.len(), |i: int| v[i]@)
}

/// The larger of `m` and the largest of `ids`.
pub open spec fn seq_max(ids: Seq<u64>, m: int) -> int
    decreases ids.len(),
{
    if ids.len() == 0 {
        m
    } else {
        let r = seq_max(ids.drop_last(), m);
        if ids.last() > r {
            ids.last() as int
        } else {
            r
        }
    }
}

/// The largest node id on any canvas, 0 where there is none.
pub open spec fn max_node_id(cs: Seq<CanvasView>) -> int
    decreases cs.len(),
{
    if cs.len() == 0 {
        0
    } else {
        seq_max(cs.last().ids, max_node_id(cs.drop_last()))
    }
}

/// The name and number of nodes of each canvas.
pub open spec fn shape(cs: Seq<CanvasView>) -> Seq<(Seq<char>, nat)> {
    Seq::new(cs.len(), |i: int| (cs[i].name, cs[i].ids.len()))
}

/// The first canvas named `name` from position `i` on, by names and sizes.
pub open spec fn index_from(sh: Seq<(Seq<char>, nat)>, name: Seq<char>, i: int) -> Option<int>
    decreases sh.len() - i,
{
    if i < 0 || i >= sh.len() {
        None
    } else if sh[i].0 == name {
        Some(i)
    } else {
        index_from(sh, name, i + 1)
    }
}

/// The first canvas named `name`, by names and sizes.
pub open spec fn canvas_index(sh: Seq<(Seq<char>, nat)>, name: Seq<char>) -> Option<int> {
    index_from(sh, name, 0)
}

proof fn lemma_index_from(sh: Seq<(Seq<char>, nat)>, name: Seq<char>, i: int)
    requires
        0 <= i,
    ensures
        index_from(sh, name, i) matches Some(c) ==> i <= c < sh.len() && sh[c].0 == name,
    decreases sh.len() - i,
{
    if i < sh.len() && sh[i].0 != name {
        lemma_index_from(sh, name, i + 1);
    }
}

/// Walking the ids of a canvas from position `j`, with `m` the largest id
/// given out so far and `used` the ids taken so far: an id that is taken
/// already gets the next fresh id (unless the canvas is the first one
/// listed); the new ids of the rest, and the largest id and taken ids after.
pub open spec fn remap_walk(ids: Seq<u64>, j: int, first: bool, m: int, used: Seq<u64>) -> (Seq<u64>, int, Seq<u64>)
    decreases ids.len() - j,
{
    if j < 0 || j >= ids.len() {
        (Seq::empty(), m, used)
    } else {
        let id = ids[j];
        if !first && used.contains(id) {
            let n = (m + 1) as u64;
            let rest = remap_walk(ids, j + 1, first, m + 1, used.push(n));
            (seq![n] + rest.0, rest.1, rest.2)
        } else {
            let rest = remap_walk(ids, j + 1, first, m, used.push(id));
            (seq![id] + rest.0, rest.1, rest.2)
        }
    }
}

/// The canvases after walking the listed canvases from position `k` of the
/// list on: a name no canvas has is passed over, and each canvas walked
/// gets its new ids and, as its next id, one more than its largest.
pub open spec fn remap_from(list: Seq<Seq<char>>, k: int, cs: Seq<CanvasView>, m: int, used: Seq<u64>) -> Seq<
    CanvasView,
>
    decreases list.len() - k,
{
    if k < 0 || k >= list.len() {
        cs
    } else {
        match canvas_index(shape(cs), list[k]) {
            None => remap_from(list, k + 1, cs, m, used),
            Some(c) => {
                let w = remap_walk(cs[c].ids, 0, k == 0, m, used);
                let nc = CanvasView { name: cs[c].name, ids: w.0, next_node_id: (seq_max(w.0, 0) + 1) as u64 };
                remap_from(list, k + 1, cs.update(c, nc), w.1, w.2)
            },
        }
    }
}

/// The canvases after giving fresh ids to nodes whose ids an earlier listed
/// canvas has taken: fresh ids count up from the largest id on any canvas.
pub open spec fn remapped(list: Seq<Seq<char>>, cs: Seq<CanvasView>) -> Seq<CanvasView> {
    remap_from(list, 0, cs, max_node_id(cs), Seq::empty())
}

/// How many node ids the walk visits from position `k` of the list on.
pub open spec fn walk_size(list: Seq<Seq<char>>, k: int, sh: Seq<(Seq<char>, nat)>) -> nat
    decreases list.len() - k,
{
    if k < 0 || k >= list.len() {
        0
    } else {
        match canvas_index(sh, list[k]) {
            None => walk_size(list, k + 1, sh),
            Some(c) => sh[c].1 + walk_size(list, k + 1, sh),
        }
    }
}

fn used_contains(used: &Vec<u64>, id: u64) -> (r: bool)
    ensures
        r == used@.contains(id),
{
    let mut i: usize = 0;
    while i < used.len()
        invariant
            i <= used@.len(),
            forall|j: int| 0 <= j < i ==> used@[j] != id,
        decreases used@.len() - i,
    {
        if used[i] == id {
            assert(used@[i as int] == id);
            return true;
        }
        i = i + 1;
    }
    false
}

/// Walks the ids of one canvas; gives its new ids and the largest id after.
fn walk_ids(ids: &Vec<u64>, first: bool, m: u64, used: &mut Vec<u64>) -> (r: (Vec<u64>, u64))
    requires
        m + ids@.len() < u64::MAX,
    ensures
        (r.0@, r.1 as int, final(used)@) == remap_walk(ids@, 0, first, m as int, old(used)@),
        r.0@.len() == ids@.len(),
        m <= r.1 <= m + ids@.len(),
        forall|i: int| 0 <= i < ids@.len() && r.0@[i] != ids@[i] ==> m < r.0@[i] <= r.1,
{
    let mut out: Vec<u64> = Vec::new();
    let mut cur: u64 = m;
    let mut j: usize = 0;
    let ghost whole = remap_walk(ids@, 0, first, m as int, old(used)@);
    while j < ids.len()
        invariant
            j <= ids@.len(),
            m + ids@.len() < u64::MAX,
            m <= cur <= m + j,
            out@.len() == j,
            whole == remap_walk(ids@, 0, first, m as int, old(used)@),
            whole == (
                out@ + remap_walk(ids@, j as int, first, cur as int, used@).0,
                remap_walk(ids@, j as int, first, cur as int, used@).1,
                remap_walk(ids@, j as int, first, cur as int, used@).2,
            ),
            forall|i: int| 0 <= i < j && out@[i] != ids@[i] ==> m < out@[i] <= cur,
        decreases ids@.len() - j,
    {
        let id = ids[j];
        let ghost rest_before = remap_walk(ids@, j as int, first, cur as int, used@);
        if !first && used_contains(used, id) {
            let n = cur + 1;
            proof {
                let rest = remap_walk(ids@, j + 1, first, cur + 1, used@.push(n));
                assert(rest_before == (seq![n] + rest.0, rest.1, rest.2));
                assert(out@.push(n) + rest.0 =~= out@ + (seq![n] + rest.0));
            }
            used.push(n);
            out.push(n);
            cur = n;
        } else {
            proof {
                let rest = remap_walk(ids@, j + 1, first, cur as int, used@.push(id));
                assert(rest_before == (seq![id] + rest.0, rest.1, rest.2));
                assert(out@.push(id) + rest.0 =~= out@ + (seq![id] + rest.0));
            }
            used.push(id);
            out.push(id);
        }
        j = j + 1;
    }
    assert(out@ + Seq::<u64>::empty() =~= out@);
    (out, cur)
}


proof fn lemma_seq_max(ids: Seq<u64>, m: int)
    ensures
        seq_max(ids, m) >= m,
        forall|i: int| 0 <= i < ids.len() ==> ids[i] <= seq_max(ids, m),
        seq_max(ids, m) == m || exists|i: int| 0 <= i < ids.len() && seq_max(ids, m) == ids[i],
    decreases ids.len(),
{
    if ids.len() > 0 {
        lemma_seq_max(ids.drop_last(), m);
        assert forall|i: int| 0 <= i < ids.len() implies ids[i] <= seq_max(ids, m) by {
            if i < ids.len() - 1 {
                assert(ids.drop_last()[i] == ids[i]);
            }
        }
        if seq_max(ids, m) != m {
            if ids.last() > seq_max(ids.drop_last(), m) {
                assert(seq_max(ids, m) == ids[ids.len() - 1]);
            } else {
                let i = choose|i: int| 0 <= i < ids.drop_last().len() && seq_max(ids.drop_last(), m) == ids.drop_last()[i];
                assert(seq_max(ids, m) == ids[i]);
            }
        }
    }
}

proof fn lemma_max_node_id(cs: Seq<CanvasView>)
    ensures
        max_node_id(cs) >= 0,
        forall|c: int, i: int| 0 <= c < cs.len() && 0 <= i < cs[c].ids.len() ==> cs[c].ids[i] <= max_node_id(cs),
        max_node_id(cs) <= u64::MAX,
    decreases cs.len(),
{
    if cs.len() > 0 {
        let d = cs.drop_last();
        lemma_max_node_id(d);
        lemma_seq_max(cs.last().ids, max_node_id(d));
        assert forall|c: int, i: int| 0 <= c < cs.len() && 0 <= i < cs[c].ids.len() implies cs[c].ids[i]
            <= max_node_id(cs) by {
            if c < cs.len() - 1 {
                assert(d[c] == cs[c]);
            }
        }
    }
}

/// The larger of `m` and the largest of `ids`.
fn max_of(ids: &Vec<u64>, m: u64) -> (r: u64)
    ensures
        r == seq_max(ids@, m as int),
{
    let mut cur = m;
    let mut j: usize = 0;
    assert(ids@.take(0) =~= Seq::<u64>::empty());
    while j < ids.len()
        invariant
            j <= ids@.len(),
            cur == seq_max(ids@.take(j as int), m as int),
        decreases ids@.len() - j,
    {
        assert(ids@.take(j + 1).drop_last() =~= ids@.take(j as int));
        assert(ids@.take(j + 1).last() == ids@[j as int]);
        if ids[j] > cur {
            cur = ids[j];
        }
        j = j + 1;
    }
    assert(ids@.take(j as int) =~= ids@);
    cur
}

/// The largest node id on any canvas.
fn max_id_of(canvases: &Vec<CanvasNodes>) -> (r: u64)
    ensures
        r == max_node_id(canvas_views(canvases@)),
{
    let ghost cs = canvas_views(canvases@);
    let mut cur: u64 = 0;
    let mut c: usize = 0;
    assert(cs.take(0) =~= Seq::<CanvasView>::empty());
    while c < canvases.len()
        invariant
            c <= canvases@.len(),
            cs == canvas_views(canvases@),
            cur == max_node_id(cs.take(c as int)),
        decreases canvases@.len() - c,
    {
        assert(cs.take(c + 1).drop_last() =~= cs.take(c as int));
        assert(cs.take(c + 1).last() == canvases@[c as int]@);
        cur = max_of(&canvases[c].ids, cur);
        c = c + 1;
    }
    assert(cs.take(c as int) =~= cs);
    cur
}

/// The position of the first canvas named `name`.
fn find_canvas(canvases: &Vec<CanvasNodes>, name: &str) -> (r: Option<usize>)
    ensures
        match canvas_index(shape(canvas_views(canvases@)), name@) {
            Some(c) => r == Some(c as usize),
            None => r is None,
        },
        r matches Some(c) ==> c < canvases@.len() && canvases@[c as int].name@ == name@,
{
    let ghost sh = shape(canvas_views(canvases@));
    let mut i: usize = 0;
    while i < canvases.len()
        invariant
            i <= canvases@.len(),
            sh == shape(canvas_views(canvases@)),
            canvas_index(sh, name@) == index_from(sh, name@, i as int),
        decreases canvases@.len() - i,
    {
        assert(sh[i as int].0 == canvases@[i as int].name@);
        if text_eq(canvases[i].name.as_str(), name) {
            return Some(i);
        }
        i = i + 1;
    }
    None
}

/// Gives fresh ids to the nodes of the listed canvases whose ids an earlier
/// listed canvas (or an earlier fresh id) has taken, so that canvases loaded
/// together do not share node ids; the first listed canvas keeps its ids.
/// Fresh ids count up from the largest id on any canvas, and each canvas
/// walked gets, as its next id, one more than its largest.
pub fn remap_conflicting_ids(canvas_list: &Vec<String>, canvases: &mut Vec<CanvasNodes>)
    requires
        max_node_id(canvas_views(old(canvases)@)) + walk_size(
            texts(canvas_list@),
            0,
            shape(canvas_views(old(canvases)@)),
        ) < u64::MAX,
    ensures
        canvas_views(final(canvases)@) == remapped(texts(canvas_list@), canvas_views(old(canvases)@)),
{
    let ghost list = texts(canvas_list@);
    let ghost cs0 = canvas_views(canvases@);
    let ghost sh0 = shape(cs0);
    let ghost goal = remapped(list, cs0);
    let max0 = max_id_of(canvases);
    proof {
        lemma_max_node_id(cs0);
        assert forall|c: int, i: int|
            0 <= c < canvases@.len() && 0 <= i < canvases@[c].ids@.len() implies canvases@[c].ids@[i] <= max0 by {
            assert(cs0[c] == canvases@[c]@);
            assert(cs0[c].ids[i] == canvases@[c].ids@[i]);
        }
    }
    let mut m: u64 = max0;
    let mut used: Vec<u64> = Vec::new();
    let mut k: usize = 0;
    while k < canvas_list.len()
        invariant
            k <= canvas_list@.len(),
            list == texts(canvas_list@),
            list.len() == canvas_list@.len(),
            sh0 == shape(canvas_views(canvases@)),
            goal == remap_from(list, k as int, canvas_views(canvases@), m as int, used@),
            m + walk_size(list, k as int, sh0) < u64::MAX,
            forall|c: int, i: int|
                0 <= c < canvases@.len() && 0 <= i < canvases@[c].ids@.len() ==> canvases@[c].ids@[i] <= m,
        decreases canvas_list@.len() - k,
    {
        let ghost cs = canvas_views(canvases@);
        let ghost pre = canvases@;
        let n = canvases.len();
        assert(sh0.len() == n);
        assert(list[k as int] == canvas_list@[k as int]@);
        match find_canvas(canvases, canvas_list[k].as_str()) {
            None => {
                assert(canvas_index(sh0, list[k as int]) is None);
                assert(walk_size(list, k as int, sh0) == walk_size(list, k + 1, sh0));
                assert(remap_from(list, k as int, cs, m as int, used@) == remap_from(list, k + 1, cs, m as int, used@));
            },
            Some(c) => {
                proof {
                    lemma_index_from(sh0, list[k as int], 0);
                    assert(canvas_index(sh0, list[k as int]) is Some);
                    let c1 = canvas_index(sh0, list[k as int])->0;
                    assert(0 <= c1 < sh0.len());
                    assert(c1 as usize == c);
                    assert(canvas_index(sh0, list[k as int]) == Some(c as int));
                    assert(sh0[c as int].1 == canvases@[c as int].ids@.len());
                    assert(walk_size(list, k as int, sh0) == sh0[c as int].1 + walk_size(list, k + 1, sh0));
                }
                let ghost used0 = used@;
                let (new_ids, m2) = walk_ids(&canvases[c].ids, k == 0, m, &mut used);
                proof {
                    assert forall|i: int| 0 <= i < new_ids@.len() implies new_ids@[i] <= m2 by {
                        if new_ids@[i] == pre[c as int].ids@[i] {
                            assert(pre[c as int].ids@[i] <= m);
                        }
                    }
                    lemma_seq_max(new_ids@, 0);
                    if seq_max(new_ids@, 0) != 0 {
                        let i = choose|i: int| 0 <= i < new_ids@.len() && seq_max(new_ids@, 0) == new_ids@[i];
                    }
                }
                let top = max_of(&new_ids, 0);
                let name = canvases[c].name.clone();
                let ghost nc = CanvasView { name: name@, ids: new_ids@, next_node_id: (top + 1) as u64 };
                assert(forall|i: int| 0 <= i < nc.ids.len() ==> nc.ids[i] <= m2);
                canvases.set(c, CanvasNodes { name, ids: new_ids, next_node_id: top + 1 });
                proof {
                    assert(canvas_views(canvases@) =~= cs.update(c as int, nc));
                    assert(shape(canvas_views(canvases@)) =~= sh0);
                    assert(nc == CanvasView {
                        name: cs[c as int].name,
                        ids: remap_walk(cs[c as int].ids, 0, k == 0, m as int, used0).0,
                        next_node_id: (seq_max(remap_walk(cs[c as int].ids, 0, k == 0, m as int, used0).0, 0) + 1) as u64,
                    });
                    assert(remap_from(list, k as int, cs, m as int, used0) == remap_from(
                        list,
                        k + 1,
                        cs.update(c as int, nc),
                        m2 as int,
                        used@,
                    ));
                    assert forall|c2: int, i: int|
                        0 <= c2 < canvases@.len() && 0 <= i < canvases@[c2].ids@.len() implies canvases@[c2].ids@[i]
                        <= m2 by {
                        if c2 != c {
                            assert(canvases@[c2] == pre[c2]);
                            assert(pre[c2].ids@[i] <= m);
                        } else {
                            assert(canvas_views(canvases@)[c2] == nc);
                            assert(canvases@[c2].ids@ == nc.ids);
                            assert(nc.ids[i] <= m2);
                        }
                    }
                }
                m = m2;
            },
        }
        k = k + 1;
    }
    assert(goal == canvas_views(canvases@));
}


/// `name` is among the first `k` names of the list.
pub open spec fn in_list(list: Seq<Seq<char>>, k: int, name: Seq<char>) -> bool {
    exists|q: int| 0 <= q < k && list[q] == name
}

/// No two canvases share a name.
pub open spec fn names_distinct(cs: Seq<CanvasView>) -> bool {
    forall|a: int, b: int| 0 <= a < b < cs.len() ==> cs[a].name != cs[b].name
}

/// No canvas has an id twice.
pub open spec fn ids_distinct(cs: Seq<CanvasView>) -> bool {
    forall|c: int, i: int, j: int|
        0 <= c < cs.len() && 0 <= i < j < cs[c].ids.len() ==> cs[c].ids[i] != cs[c].ids[j]
}

/// No two canvases named among the first `k` names of the list share an id.
pub open spec fn listed_apart(cs: Seq<CanvasView>, list: Seq<Seq<char>>, k: int) -> bool {
    forall|c1: int, c2: int, i1: int, i2: int|
        0 <= c1 < cs.len() && 0 <= c2 < cs.len() && c1 != c2 && in_list(list, k, cs[c1].name) && in_list(
            list,
            k,
            cs[c2].name,
        ) && 0 <= i1 < cs[c1].ids.len() && 0 <= i2 < cs[c2].ids.len() ==> #[trigger] cs[c1].ids[i1]
            != #[trigger] cs[c2].ids[i2]
}

proof fn lemma_remap_walk(ids: Seq<u64>, j: int, first: bool, m: int, used: Seq<u64>)
    requires
        0 <= j <= ids.len(),
        m + (ids.len() - j) < u64::MAX,
        forall|t: int| j <= t < ids.len() ==> ids[t] <= m,
        forall|x: int| 0 <= x < used.len() ==> used[x] <= m,
        forall|a: int, b: int| j <= a < b < ids.len() ==> ids[a] != ids[b],
        first ==> forall|t: int| j <= t < ids.len() ==> !used.contains(#[trigger] ids[t]),
    ensures
        remap_walk(ids, j, first, m, used).0.len() == ids.len() - j,
        m <= remap_walk(ids, j, first, m, used).1 <= m + (ids.len() - j),
        remap_walk(ids, j, first, m, used).2 == used + remap_walk(ids, j, first, m, used).0,
        forall|t: int|
            0 <= t < ids.len() - j ==> #[trigger] remap_walk(ids, j, first, m, used).0[t] <= remap_walk(
                ids,
                j,
                first,
                m,
                used,
            ).1 && !used.contains(remap_walk(ids, j, first, m, used).0[t]),
        forall|a: int, b: int|
            0 <= a < b < ids.len() - j ==> remap_walk(ids, j, first, m, used).0[a] != remap_walk(
                ids,
                j,
                first,
                m,
                used,
            ).0[b],
    decreases ids.len() - j,
{
    let w = remap_walk(ids, j, first, m, used);
    if j == ids.len() {
        assert(used + w.0 =~= used);
    } else {
        let id = ids[j];
        if !first && used.contains(id) {
            let n = (m + 1) as u64;
            let u2 = used.push(n);
            assert forall|x: int| 0 <= x < u2.len() implies u2[x] <= m + 1 by {
                if x < used.len() {
                    assert(u2[x] == used[x]);
                }
            }
            lemma_remap_walk(ids, j + 1, first, m + 1, u2);
            let rest = remap_walk(ids, j + 1, first, m + 1, u2);
            assert(w.0 == seq![n] + rest.0);
            assert(u2 + rest.0 =~= used + (seq![n] + rest.0));
            assert forall|t: int| 0 <= t < ids.len() - j implies #[trigger] w.0[t] <= w.1 && !used.contains(w.0[t]) by {
                if t == 0 {
                    assert(w.0[0] == n);
                    if used.contains(n) {
                        let x = choose|x: int| 0 <= x < used.len() && used[x] == n;
                        assert(used[x] <= m);
                    }
                } else {
                    assert(w.0[t] == rest.0[t - 1]);
                    if used.contains(w.0[t]) {
                        let x = choose|x: int| 0 <= x < used.len() && used[x] == w.0[t];
                        assert(u2[x] == used[x]);
                        assert(u2.contains(rest.0[t - 1]));
                    }
                }
            }
            assert forall|a: int, b: int| 0 <= a < b < ids.len() - j implies w.0[a] != w.0[b] by {
                if a == 0 {
                    assert(w.0[b] == rest.0[b - 1]);
                    assert(!u2.contains(rest.0[b - 1]));
                    assert(u2[used.len() as int] == n);
                } else {
                    assert(w.0[a] == rest.0[a - 1] && w.0[b] == rest.0[b - 1]);
                }
            }
        } else {
            assert(!used.contains(id));
            let u2 = used.push(id);
            assert forall|x: int| 0 <= x < u2.len() implies u2[x] <= m by {
                if x < used.len() {
                    assert(u2[x] == used[x]);
                }
            }
            if first {
                assert forall|t: int| j + 1 <= t < ids.len() implies !u2.contains(#[trigger] ids[t]) by {
                    assert(!used.contains(ids[t]));
                    if u2.contains(ids[t]) {
                        let x = choose|x: int| 0 <= x < u2.len() && u2[x] == ids[t];
                        if x < used.len() {
                            assert(used[x] == u2[x]);
                        } else {
                            assert(ids[j] != ids[t]);
                        }
                    }
                }
            }
            lemma_remap_walk(ids, j + 1, first, m, u2);
            let rest = remap_walk(ids, j + 1, first, m, u2);
            assert(w.0 == seq![id] + rest.0);
            assert(u2 + rest.0 =~= used + (seq![id] + rest.0));
            assert forall|t: int| 0 <= t < ids.len() - j implies #[trigger] w.0[t] <= w.1 && !used.contains(w.0[t]) by {
                if t == 0 {
                    assert(w.0[0] == id);
                } else {
                    assert(w.0[t] == rest.0[t - 1]);
                    if used.contains(w.0[t]) {
                        let x = choose|x: int| 0 <= x < used.len() && used[x] == w.0[t];
                        assert(u2[x] == used[x]);
                        assert(u2.contains(rest.0[t - 1]));
                    }
                }
            }
            assert forall|a: int, b: int| 0 <= a < b < ids.len() - j implies w.0[a] != w.0[b] by {
                if a == 0 {
                    assert(w.0[b] == rest.0[b - 1]);
                    assert(!u2.contains(rest.0[b - 1]));
                    assert(u2[used.len() as int] == id);
                } else {
                    assert(w.0[a] == rest.0[a - 1] && w.0[b] == rest.0[b - 1]);
                }
            }
        }
    }
}


proof fn lemma_in_list_step(list: Seq<Seq<char>>, k: int, name: Seq<char>)
    requires
        0 <= k < list.len(),
    ensures
        in_list(list, k + 1, name) <==> (in_list(list, k, name) || list[k] == name),
{
    if in_list(list, k + 1, name) && list[k] != name {
        let q = choose|q: int| 0 <= q < k + 1 && list[q] == name;
        assert(q < k);
    }
    if list[k] == name {
        assert(0 <= k < k + 1 && list[k] == name);
    }
    if in_list(list, k, name) {
        let q = choose|q: int| 0 <= q < k && list[q] == name;
        assert(0 <= q < k + 1 && list[q] == name);
    }
}

proof fn lemma_remap_from(list: Seq<Seq<char>>, k: int, cs: Seq<CanvasView>, m: int, used: Seq<u64>)
    requires
        0 <= k <= list.len(),
        0 <= m,
        names_distinct(cs),
        ids_distinct(cs),
        forall|c: int, i: int| 0 <= c < cs.len() && 0 <= i < cs[c].ids.len() ==> cs[c].ids[i] <= m,
        forall|x: int| 0 <= x < used.len() ==> used[x] <= m,
        m + walk_size(list, k, shape(cs)) < u64::MAX,
        k == 0 ==> used.len() == 0,
        forall|c: int, i: int|
            0 <= c < cs.len() && in_list(list, k, cs[c].name) && 0 <= i < cs[c].ids.len() ==> used.contains(
                #[trigger] cs[c].ids[i],
            ),
        listed_apart(cs, list, k),
    ensures
        ids_distinct(remap_from(list, k, cs, m, used)),
        listed_apart(remap_from(list, k, cs, m, used), list, list.len() as int),
        names_distinct(remap_from(list, k, cs, m, used)),
        remap_from(list, k, cs, m, used).len() == cs.len(),
    decreases list.len() - k,
{
    if k < list.len() {
        let sh = shape(cs);
        assert forall|name: Seq<char>| in_list(list, k + 1, name) <==> (in_list(list, k, name) || list[k] == name) by {
            lemma_in_list_step(list, k, name);
        }
        lemma_index_from(sh, list[k], 0);
        match canvas_index(sh, list[k]) {
            None => {
                assert forall|c: int| 0 <= c < cs.len() implies cs[c].name != list[k] by {
                    if cs[c].name == list[k] {
                        lemma_index_none(sh, list[k], 0, c);
                    }
                }
                assert forall|c: int, i: int|
                    0 <= c < cs.len() && in_list(list, k + 1, cs[c].name) && 0 <= i < cs[c].ids.len() implies used.contains(
                    #[trigger] cs[c].ids[i]) by {
                    assert(in_list(list, k, cs[c].name));
                }
                lemma_remap_from(list, k + 1, cs, m, used);
            },
            Some(c) => {
                let ids = cs[c].ids;
                assert(sh[c].1 == ids.len());
                assert forall|t: int| 0 <= t < ids.len() implies ids[t] <= m by {
                    assert(cs[c].ids[t] <= m);
                }
                assert forall|a: int, b: int| 0 <= a < b < ids.len() implies ids[a] != ids[b] by {
                    assert(cs[c].ids[a] != cs[c].ids[b]);
                }
                lemma_remap_walk(ids, 0, k == 0, m, used);
                let w = remap_walk(ids, 0, k == 0, m, used);
                let nc = CanvasView { name: cs[c].name, ids: w.0, next_node_id: (seq_max(w.0, 0) + 1) as u64 };
                let cs2 = cs.update(c, nc);
                assert(shape(cs2) =~= sh);
                assert forall|a: int, b: int| 0 <= a < b < cs2.len() implies cs2[a].name != cs2[b].name by {
                    assert(cs2[a].name == cs[a].name && cs2[b].name == cs[b].name);
                }
                assert forall|c2: int, i: int, j: int|
                    0 <= c2 < cs2.len() && 0 <= i < j < cs2[c2].ids.len() implies cs2[c2].ids[i] != cs2[c2].ids[j] by {
                    if c2 != c {
                        assert(cs2[c2] == cs[c2]);
                    }
                }
                assert forall|c2: int, i: int| 0 <= c2 < cs2.len() && 0 <= i < cs2[c2].ids.len() implies cs2[c2].ids[i]
                    <= w.1 by {
                    if c2 != c {
                        assert(cs2[c2] == cs[c2]);
                        assert(cs[c2].ids[i] <= m);
                    } else {
                        assert(w.0[i] <= w.1);
                    }
                }
                assert forall|x: int| 0 <= x < w.2.len() implies w.2[x] <= w.1 by {
                    if x < used.len() {
                        assert(w.2[x] == used[x]);
                    } else {
                        assert(w.2[x] == w.0[x - used.len()]);
                    }
                }
                assert(walk_size(list, k, sh) == sh[c].1 + walk_size(list, k + 1, sh));
                assert forall|c2: int, i: int|
                    0 <= c2 < cs2.len() && in_list(list, k + 1, cs2[c2].name) && 0 <= i < cs2[c2].ids.len() implies w.2.contains(
                    #[trigger] cs2[c2].ids[i]) by {
                    if c2 == c {
                        assert(w.2[used.len() + i] == w.0[i]);
                    } else {
                        assert(cs2[c2] == cs[c2]);
                        assert(cs[c2].name != list[k]);
                        assert(in_list(list, k, cs[c2].name));
                        assert(used.contains(cs[c2].ids[i]));
                        let x = choose|x: int| 0 <= x < used.len() && used[x] == cs[c2].ids[i];
                        assert(w.2[x] == used[x]);
                    }
                }
                assert forall|c1: int, c2: int, i1: int, i2: int|
                    0 <= c1 < cs2.len() && 0 <= c2 < cs2.len() && c1 != c2 && in_list(list, k + 1, cs2[c1].name)
                        && in_list(list, k + 1, cs2[c2].name) && 0 <= i1 < cs2[c1].ids.len() && 0 <= i2
                        < cs2[c2].ids.len() implies #[trigger] cs2[c1].ids[i1] != #[trigger] cs2[c2].ids[i2] by {
                    if c1 == c {
                        assert(cs2[c2] == cs[c2]);
                        assert(cs[c2].name != list[k]);
                        assert(in_list(list, k, cs[c2].name));
                        assert(used.contains(cs[c2].ids[i2]));
                        assert(!used.contains(w.0[i1]));
                    } else if c2 == c {
                        assert(cs2[c1] == cs[c1]);
                        assert(cs[c1].name != list[k]);
                        assert(in_list(list, k, cs[c1].name));
                        assert(used.contains(cs[c1].ids[i1]));
                        assert(!used.contains(w.0[i2]));
                    } else {
                        assert(cs2[c1] == cs[c1] && cs2[c2] == cs[c2]);
                        assert(cs[c1].name != list[k] && cs[c2].name != list[k]);
                        assert(in_list(list, k, cs[c1].name) && in_list(list, k, cs[c2].name));
                        assert(cs[c1].ids[i1] != cs[c2].ids[i2]);
                    }
                }
                lemma_remap_from(list, k + 1, cs2, w.1, w.2);
            },
        }
    } else {
        assert forall|c1: int, c2: int, i1: int, i2: int|
            0 <= c1 < cs.len() && 0 <= c2 < cs.len() && c1 != c2 && in_list(list, list.len() as int, cs[c1].name)
                && in_list(list, list.len() as int, cs[c2].name) && 0 <= i1 < cs[c1].ids.len() && 0 <= i2
                < cs[c2].ids.len() implies #[trigger] cs[c1].ids[i1] != #[trigger] cs[c2].ids[i2] by {
            assert(in_list(list, k, cs[c1].name) && in_list(list, k, cs[c2].name));
        }
    }
}

proof fn lemma_index_none(sh: Seq<(Seq<char>, nat)>, name: Seq<char>, i: int, c: int)
    requires
        0 <= i <= c < sh.len(),
        sh[c].0 == name,
    ensures
        index_from(sh, name, i) is Some,
    decreases c - i,
{
    if sh[i].0 != name {
        lemma_index_none(sh, name, i + 1, c);
    }
}

/// Canvases loaded together do not share node ids once remapped: where the
/// canvases have distinct names and no canvas has an id twice, afterwards no
/// canvas has an id twice and no two listed canvases share an id.
pub proof fn lemma_remapped_apart(list: Seq<Seq<char>>, cs: Seq<CanvasView>)
    requires
        names_distinct(cs),
        ids_distinct(cs),
        max_node_id(cs) + walk_size(list, 0, shape(cs)) < u64::MAX,
    ensures
        ids_distinct(remapped(list, cs)),
        listed_apart(remapped(list, cs), list, list.len() as int),
{
    lemma_max_node_id(cs);
    assert forall|c: int, i: int|
        0 <= c < cs.len() && in_list(list, 0, cs[c].name) && 0 <= i < cs[c].ids.len() implies Seq::<u64>::empty().contains(
        #[trigger] cs[c].ids[i]) by {
        let q = choose|q: int| 0 <= q < 0 && list[q] == cs[c].name;
    }
    assert forall|c1: int, c2: int, i1: int, i2: int|
        0 <= c1 < cs.len() && 0 <= c2 < cs.len() && c1 != c2 && in_list(list, 0, cs[c1].name) && in_list(
            list,
            0,
            cs[c2].name,
        ) && 0 <= i1 < cs[c1].ids.len() && 0 <= i2 < cs[c2].ids.len() implies #[trigger] cs[c1].ids[i1]
        != #[trigger] cs[c2].ids[i2] by {
        let q = choose|q: int| 0 <= q < 0 && list[q] == cs[c1].name;
    }
    lemma_remap_from(list, 0, cs, max_node_id(cs), Seq::empty());
}

} // verus!
