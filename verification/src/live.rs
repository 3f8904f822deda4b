//! The set of live drop-protected locals: a map from binding id to the span
//! where the binding was made, kept as a sequence without repeated ids.
use vstd::prelude::*;
use crate::ast::{NodeId, Span};

verus! {

/// A tracked local: its binding id, where it was bound, and whether the
/// checked function is allowed to drop it.
#[derive(Clone, Copy, Debug, PartialEq, Eq, Structural)]
pub struct LiveVar {
    pub id: NodeId,
    pub span: Span,
    pub droppable: bool,
}

/// No id occurs twice: the sequence is a map from id to binding.
pub open spec fn spec_unique(m: Seq<LiveVar>) -> bool {
    forall|i: int, j: int| 0 <= i < m.len() && 0 <= j < m.len() && i != j ==> #[trigger] m[i].id != #[trigger] m[j].id
}

/// Whether `id` is tracked in `m`.
pub open spec fn spec_has(m: Seq<LiveVar>, id: NodeId) -> bool {
    exists|i: int| 0 <= i < m.len() && #[trigger] m[i].id == id
}

/// The position of `id` in `m` (meaningful when `spec_has(m, id)`).
pub open spec fn spec_pos(m: Seq<LiveVar>, id: NodeId) -> int {
    choose|i: int| 0 <= i < m.len() && #[trigger] m[i].id == id
}

/// `m` with `v` bound: its entry replaced if its id is already tracked, else
/// added at the end.
pub open spec fn spec_insert(m: Seq<LiveVar>, v: LiveVar) -> Seq<LiveVar> {
    if spec_has(m, v.id) {
        m.update(spec_pos(m, v.id), v)
    } else {
        m.push(v)
    }
}

/// `m` without `id`.
pub open spec fn spec_remove(m: Seq<LiveVar>, id: NodeId) -> Seq<LiveVar> {
    if spec_has(m, id) {
        m.remove(spec_pos(m, id))
    } else {
        m
    }
}

/// Two maps are equal: they hold the same entries.
pub open spec fn spec_same(a: Seq<LiveVar>, b: Seq<LiveVar>) -> bool {
    forall|v: LiveVar| a.contains(v) <==> b.contains(v)
}

/// Two optional maps are equal.
pub open spec fn spec_same_opt(a: Option<Seq<LiveVar>>, b: Option<Seq<LiveVar>>) -> bool {
    match (a, b) {
        (None, None) => true,
        (Some(x), Some(y)) => spec_same(x, y),
        _ => false,
    }
}

pub open spec fn spec_unique_opt(m: Option<Seq<LiveVar>>) -> bool {
    match m {
        Some(x) => spec_unique(x),
        None => true,
    }
}

/// The view of an optional map.
pub open spec fn view_opt(m: Option<Vec<LiveVar>>) -> Option<Seq<LiveVar>> {
    match m {
        Some(x) => Some(x@),
        None => None,
    }
}

/// The entries of a map, as a mathematical map from id to (span, droppable).
pub open spec fn spec_as_map(m: Seq<LiveVar>) -> Map<NodeId, (Span, bool)> {
    Map::new(|id: NodeId| spec_has(m, id), |id: NodeId| (m[spec_pos(m, id)].span, m[spec_pos(m, id)].droppable))
}

/// In a map without repeated ids, the entry found for an id is at the only
/// position that holds it.
pub proof fn lemma_pos_unique(m: Seq<LiveVar>, i: int)
    requires
        spec_unique(m),
        0 <= i < m.len(),
    ensures
        spec_has(m, m[i].id),
        spec_pos(m, m[i].id) == i,
{
    assert(spec_has(m, m[i].id));
}

/// Binding keeps ids unique, and makes `v` the entry of its id.
pub proof fn lemma_insert(m: Seq<LiveVar>, v: LiveVar)
    requires
        spec_unique(m),
    ensures
        spec_unique(spec_insert(m, v)),
        spec_as_map(spec_insert(m, v)) == spec_as_map(m).insert(v.id, (v.span, v.droppable)),
        forall|y: NodeId| #[trigger] spec_has(spec_insert(m, v), y) == (spec_has(m, y) || y == v.id),
{
    let r = spec_insert(m, v);
    if spec_has(m, v.id) {
        let p = spec_pos(m, v.id);
        assert(spec_unique(r)) by {
            assert forall|i: int, j: int| 0 <= i < r.len() && 0 <= j < r.len() && i != j implies #[trigger] r[i].id != #[trigger] r[j].id by {
                if i != p && j != p {
                    assert(r[i] == m[i] && r[j] == m[j]);
                }
            }
        }
    } else {
        assert(spec_unique(r)) by {
            assert forall|i: int, j: int| 0 <= i < r.len() && 0 <= j < r.len() && i != j implies #[trigger] r[i].id != #[trigger] r[j].id by {
                if i == m.len() as int {
                    assert(r[j] == m[j]);
                } else if j == m.len() as int {
                    assert(r[i] == m[i]);
                } else {
                    assert(r[i] == m[i] && r[j] == m[j]);
                }
            }
        }
    }
    assert forall|id: NodeId| #![auto] spec_has(r, id) == (spec_has(m, id) || id == v.id) by {
        if spec_has(m, id) && id != v.id {
            let k = spec_pos(m, id);
            assert(r[k] == m[k]);
            assert(r[k].id == id);
        }
        if id == v.id {
            if spec_has(m, v.id) {
                let p = spec_pos(m, v.id);
                assert(r[p].id == id);
            } else {
                assert(r[m.len() as int].id == id);
            }
        }
        if spec_has(r, id) && id != v.id {
            let k = spec_pos(r, id);
            if spec_has(m, v.id) {
                assert(m[k].id == id);
            } else {
                assert(k < m.len());
                assert(m[k].id == id);
            }
        }
    }
    assert forall|id: NodeId| spec_has(r, id) implies #[trigger] spec_as_map(r)[id] == spec_as_map(m).insert(v.id, (v.span, v.droppable))[id] by {
        let k = spec_pos(r, id);
        lemma_pos_unique(r, k);
        if id != v.id {
            if spec_has(m, v.id) {
                assert(m[k] == r[k]);
                lemma_pos_unique(m, k);
            } else {
                assert(k < m.len());
                assert(m[k] == r[k]);
                lemma_pos_unique(m, k);
            }
        } else {
            if spec_has(m, v.id) {
                let p = spec_pos(m, v.id);
                assert(r[p] == v);
                lemma_pos_unique(r, p);
            } else {
                assert(r[m.len() as int] == v);
                lemma_pos_unique(r, m.len() as int);
            }
        }
    }
    assert(spec_as_map(r) =~= spec_as_map(m).insert(v.id, (v.span, v.droppable)));
}

/// Removing keeps ids unique, and removes exactly the entry of `id`.
pub proof fn lemma_remove(m: Seq<LiveVar>, id: NodeId)
    requires
        spec_unique(m),
    ensures
        spec_unique(spec_remove(m, id)),
        spec_as_map(spec_remove(m, id)) == spec_as_map(m).remove(id),
        forall|y: NodeId| #[trigger] spec_has(spec_remove(m, id), y) == (spec_has(m, y) && y != id),
{
    let r = spec_remove(m, id);
    if spec_has(m, id) {
        let p = spec_pos(m, id);
        m.remove_ensures(p);
        assert(spec_unique(r)) by {
            assert forall|i: int, j: int| 0 <= i < r.len() && 0 <= j < r.len() && i != j implies #[trigger] r[i].id != #[trigger] r[j].id by {
                let mi = if i < p { i } else { i + 1 };
                let mj = if j < p { j } else { j + 1 };
                assert(r[i] == m[mi]);
                assert(r[j] == m[mj]);
            }
        }
        assert forall|x: NodeId| #![auto] spec_has(r, x) == (spec_has(m, x) && x != id) by {
            if spec_has(r, x) {
                let k = spec_pos(r, x);
                let mk = if k < p { k } else { k + 1 };
                assert(r[k] == m[mk]);
                assert(m[mk].id == x);
                assert(mk != p);
            }
            if spec_has(m, x) && x != id {
                let k = spec_pos(m, x);
                assert(k != p);
                let rk = if k < p { k } else { k - 1 };
                assert(r[rk] == m[k]);
            }
        }
        assert forall|x: NodeId| spec_has(r, x) implies #[trigger] spec_as_map(r)[x] == spec_as_map(m).remove(id)[x] by {
            let k = spec_pos(r, x);
            lemma_pos_unique(r, k);
            let mk = if k < p { k } else { k + 1 };
            assert(r[k] == m[mk]);
            lemma_pos_unique(m, mk);
        }
        assert(spec_as_map(r) =~= spec_as_map(m).remove(id));
    } else {
        assert(spec_as_map(r) =~= spec_as_map(m).remove(id));
    }
}

/// For maps without repeated ids, holding the same entries is being the same
/// map from ids to bindings.
pub proof fn lemma_same_is_map_equality(a: Seq<LiveVar>, b: Seq<LiveVar>)
    requires
        spec_unique(a),
        spec_unique(b),
    ensures
        spec_same(a, b) <==> spec_as_map(a) == spec_as_map(b),
{
    if spec_same(a, b) {
        assert forall|id: NodeId| #![auto] spec_has(a, id) == spec_has(b, id) by {
            if spec_has(a, id) {
                let k = spec_pos(a, id);
                assert(a.contains(a[k]));
                assert(b.contains(a[k]));
            }
            if spec_has(b, id) {
                let k = spec_pos(b, id);
                assert(b.contains(b[k]));
                assert(a.contains(b[k]));
            }
        }
        assert forall|id: NodeId| spec_has(a, id) implies #[trigger] spec_as_map(a)[id] == spec_as_map(b)[id] by {
            let k = spec_pos(a, id);
            assert(a.contains(a[k]));
            let kb = choose|j: int| 0 <= j < b.len() && b[j] == a[k];
            lemma_pos_unique(b, kb);
        }
        assert(spec_as_map(a) =~= spec_as_map(b));
    }
    if spec_as_map(a) == spec_as_map(b) {
        assert forall|v: LiveVar| a.contains(v) <==> b.contains(v) by {
            if a.contains(v) {
                let k = choose|j: int| 0 <= j < a.len() && a[j] == v;
                lemma_pos_unique(a, k);
                assert(spec_as_map(a).dom().contains(v.id));
                assert(spec_as_map(b).dom().contains(v.id));
                let kb = spec_pos(b, v.id);
                assert(spec_as_map(a)[v.id] == (v.span, v.droppable));
                assert(spec_as_map(b)[v.id] == (b[kb].span, b[kb].droppable));
                assert(b[kb] == v);
            }
            if b.contains(v) {
                let k = choose|j: int| 0 <= j < b.len() && b[j] == v;
                lemma_pos_unique(b, k);
                assert(spec_as_map(b).dom().contains(v.id));
                assert(spec_as_map(a).dom().contains(v.id));
                let ka = spec_pos(a, v.id);
                assert(spec_as_map(b)[v.id] == (v.span, v.droppable));
                assert(spec_as_map(a)[v.id] == (a[ka].span, a[ka].droppable));
                assert(a[ka] == v);
            }
        }
    }
}

/// The position of `id` in `m`, if it is tracked.
pub fn find(m: &Vec<LiveVar>, id: NodeId) -> (r: Option<usize>)
    requires
        spec_unique(m@),
    ensures
        r is None <==> !spec_has(m@, id),
        r matches Some(i) ==> i < m@.len() && i == spec_pos(m@, id),
{
    let mut i: usize = 0;
    while i < m.len()
        invariant
            i <= m.len(),
            spec_unique(m@),
            forall|j: int| 0 <= j < i ==> m@[j].id != id,
        decreases m.len() - i,
    {
        if m[i].id == id {
            proof {
                lemma_pos_unique(m@, i as int);
            }
            return Some(i);
        }
        i = i + 1;
    }
    None
}

/// Whether `id` is tracked in `m`.
pub fn contains(m: &Vec<LiveVar>, id: NodeId) -> (r: bool)
    requires
        spec_unique(m@),
    ensures
        r == spec_has(m@, id),
{
    find(m, id).is_some()
}

/// Binds `v` in `m`, replacing the entry of its id if there is one.
pub fn insert(m: &mut Vec<LiveVar>, v: LiveVar)
    requires
        spec_unique(old(m)@),
    ensures
        final(m)@ == spec_insert(old(m)@, v),
        spec_unique(final(m)@),
{
    proof {
        lemma_insert(m@, v);
    }
    match find(m, v.id) {
        Some(i) => {
            m.set(i, v);
        },
        None => {
            m.push(v);
        },
    }
}

/// Removes `id` from `m`.
pub fn remove(m: &mut Vec<LiveVar>, id: NodeId)
    requires
        spec_unique(old(m)@),
    ensures
        final(m)@ == spec_remove(old(m)@, id),
        spec_unique(final(m)@),
{
    proof {
        lemma_remove(m@, id);
    }
    match find(m, id) {
        Some(i) => {
            m.remove(i);
        },
        None => {},
    }
}

/// Whether `x` is an entry of `b`.
pub fn has_entry(b: &Vec<LiveVar>, x: LiveVar) -> (r: bool)
    ensures
        r == b@.contains(x),
{
    let mut k: usize = 0;
    while k < b.len()
        invariant
            k <= b.len(),
            forall|j: int| 0 <= j < k ==> b@[j] != x,
        decreases b.len() - k,
    {
        if b[k] == x {
            return true;
        }
        k = k + 1;
    }
    false
}

/// Whether every entry of `a` is an entry of `b`.
fn included(a: &Vec<LiveVar>, b: &Vec<LiveVar>) -> (r: bool)
    ensures
        r == forall|v: LiveVar| a@.contains(v) ==> b@.contains(v),
{
    let mut i: usize = 0;
    while i < a.len()
        invariant
            i <= a.len(),
            forall|j: int| 0 <= j < i ==> b@.contains(#[trigger] a@[j]),
        decreases a.len() - i,
    {
        let found = has_entry(b, a[i]);
        if !found {
            assert(!b@.contains(a@[i as int]));
            assert(a@.contains(a@[i as int]));
            return false;
        }
        i = i + 1;
    }
    assert forall|v: LiveVar| a@.contains(v) implies b@.contains(v) by {
        let j = choose|j: int| 0 <= j < a.len() && a@[j] == v;
        assert(b@.contains(a@[j]));
    }
    true
}

/// Whether `a` and `b` are the same map.
pub fn same(a: &Vec<LiveVar>, b: &Vec<LiveVar>) -> (r: bool)
    ensures
        r == spec_same(a@, b@),
{
    included(a, b) && included(b, a)
}

/// Whether `a` and `b` are the same optional map.
pub fn same_opt(a: &Option<Vec<LiveVar>>, b: &Option<Vec<LiveVar>>) -> (r: bool)
    ensures
        r == spec_same_opt(view_opt(*a), view_opt(*b)),
{
    match (a, b) {
        (None, None) => true,
        (Some(x), Some(y)) => same(x, y),
        _ => false,
    }
}

/// A copy of `m`.
pub fn copy(m: &Vec<LiveVar>) -> (r: Vec<LiveVar>)
    ensures
        r@ == m@,
{
    let mut r: Vec<LiveVar> = Vec::new();
    let mut i: usize = 0;
    while i < m.len()
        invariant
            i <= m.len(),
            r@ == m@.take(i as int),
        decreases m.len() - i,
    {
        r.push(m[i]);
        i = i + 1;
        assert(r@ =~= m@.take(i as int));
    }
    assert(m@.take(i as int) =~= m@);
    r
}

/// A copy of an optional map.
pub fn copy_opt(m: &Option<Vec<LiveVar>>) -> (r: Option<Vec<LiveVar>>)
    ensures
        view_opt(r) == view_opt(*m),
{
    match m {
        Some(x) => Some(copy(x)),
        None => None,
    }
}

/// The exit record of a loop after a branch leaves it with the locals `lo`:
/// the first branch to leave fixes the record, and it is never replaced.
pub open spec fn spec_record_exit(cur: Option<Seq<LiveVar>>, lo: Option<Seq<LiveVar>>) -> Option<Seq<LiveVar>> {
    match cur {
        Some(_) => cur,
        None => lo,
    }
}

/// Records in `loopout` the locals `lo` with which a branch leaves a loop,
/// unless an exit is already recorded. Returns whether the branch agrees
/// with the record: there was none, or it holds the same locals.
pub fn update_loopout(loopout: &mut Option<Vec<LiveVar>>, lo: &Option<Vec<LiveVar>>) -> (agrees: bool)
    ensures
        view_opt(*final(loopout)) == spec_record_exit(view_opt(*old(loopout)), view_opt(*lo)),
        agrees == (*old(loopout) is None || spec_same_opt(view_opt(*old(loopout)), view_opt(*lo))),
{
    match loopout {
        Some(cur) => match lo {
            Some(l) => same(cur, l),
            None => false,
        },
        None => {
            *loopout = copy_opt(lo);
            true
        },
    }
}

/// The exit record after branches leave the loop with the locals `los`, in
/// order.
pub open spec fn spec_record_all(cur: Option<Seq<LiveVar>>, los: Seq<Option<Seq<LiveVar>>>) -> Option<Seq<LiveVar>>
    decreases los.len(),
{
    if los.len() == 0 {
        cur
    } else {
        spec_record_exit(spec_record_all(cur, los.drop_last()), los.last())
    }
}

/// A loop's recorded exit is never replaced: after any sequence of records,
/// a recorded exit is still the one recorded, and the first exit recorded
/// stays.
pub proof fn law_first_recorded_exit_stays(cur: Option<Seq<LiveVar>>, los: Seq<Option<Seq<LiveVar>>>)
    ensures
        cur is Some ==> spec_record_all(cur, los) == cur,
        cur is None && los.len() > 0 && los[0] is Some ==> spec_record_all(cur, los) == los[0],
    decreases los.len(),
{
    if los.len() > 0 {
        law_first_recorded_exit_stays(cur, los.drop_last());
        if los.len() > 1 {
            assert(los.drop_last()[0] == los[0]);
        }
    }
}

} // verus!
