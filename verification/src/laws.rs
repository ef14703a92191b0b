//! Laws of the store's observable behaviour, stated over the replay
//! model that the operations' contracts speak of.

use vstd::prelude::*;

use crate::command::Command;
use crate::model::{cmd_key, init_state, is_put, put_value, recover, recover_map, run_seg,
    run_segs, staleness_of, step, lemma_run_segs_push, RunState};

verus! {

/// Setting a key and then reading it yields the value just set.
pub proof fn lemma_set_then_get(m: Map<Seq<char>, Seq<char>>, k: Seq<char>, v: Seq<char>)
    ensures
        m.insert(k, v).contains_key(k),
        m.insert(k, v)[k] == v,
{
}

/// A fresh store, recovered from no segments at all, binds no key:
/// every `get` misses and every `remove` fails.
pub proof fn lemma_fresh_store_empty()
    ensures
        recover_map(Seq::<Vec<Command>>::empty()) == Map::<Seq<char>, Seq<char>>::empty(),
        staleness_of(Seq::<Vec<Command>>::empty()) == 0,
{
}

/// Setting a key and then removing it leaves the key unbound.
pub proof fn lemma_set_remove_get(m: Map<Seq<char>, Seq<char>>, k: Seq<char>, v: Seq<char>)
    ensures
        !m.insert(k, v).remove(k).contains_key(k),
{
}

/// Overwriting a key with the value it already has does not change
/// the observable state.  (It still counts one more record stale:
/// the operations' own contracts say so.)
pub proof fn lemma_overwrite_same_value(m: Map<Seq<char>, Seq<char>>, k: Seq<char>, v: Seq<char>)
    ensures
        m.insert(k, v).insert(k, v) == m.insert(k, v),
{
    assert(m.insert(k, v).insert(k, v) =~= m.insert(k, v));
}

/// Whether any record of `seg` speaks about key `k`.
pub open spec fn seg_touches(seg: Seq<Command>, k: Seq<char>) -> bool {
    exists|i: int| 0 <= i < seg.len() && cmd_key(#[trigger] seg[i]) == k
}

/// A segment with no record about `k` leaves `k`'s binding as it was.
pub proof fn lemma_untouched_seg(st: RunState, seg: Seq<Command>, k: Seq<char>)
    requires
        !seg_touches(seg, k),
    ensures
        run_seg(st, seg).0.contains_key(k) == st.0.contains_key(k),
        st.0.contains_key(k) ==> run_seg(st, seg).0[k] == st.0[k],
    decreases seg.len(),
{
    if seg.len() == 0 {
    } else {
        assert(cmd_key(seg[0]) != k);
        assert forall|i: int| 0 <= i < seg.drop_first().len() implies cmd_key(
            #[trigger] seg.drop_first()[i],
        ) != k by {
            assert(seg.drop_first()[i] == seg[i + 1]);
        }
        lemma_untouched_seg(step(st, seg.first()), seg.drop_first(), k);
    }
}

/// Within one segment, a `Put` of `k` after which no record touches
/// `k` decides `k`'s binding, whatever came before.
pub proof fn lemma_put_wins_in_seg(
    st: RunState,
    seg: Seq<Command>,
    i: int,
    k: Seq<char>,
    v: Seq<char>,
)
    requires
        0 <= i < seg.len(),
        is_put(seg[i]),
        cmd_key(seg[i]) == k,
        put_value(seg[i]) == v,
        forall|t: int| i < t < seg.len() ==> cmd_key(#[trigger] seg[t]) != k,
    ensures
        run_seg(st, seg).0.contains_key(k),
        run_seg(st, seg).0[k] == v,
    decreases seg.len(),
{
    if i == 0 {
        let st1 = step(st, seg.first());
        assert(st1.0.contains_key(k) && st1.0[k] == v);
        assert forall|t: int| 0 <= t < seg.drop_first().len() implies cmd_key(
            #[trigger] seg.drop_first()[t],
        ) != k by {
            assert(seg.drop_first()[t] == seg[t + 1]);
        }
        assert(!seg_touches(seg.drop_first(), k));
        lemma_untouched_seg(st1, seg.drop_first(), k);
    } else {
        assert(seg.drop_first()[i - 1] == seg[i]);
        assert forall|t: int| i - 1 < t < seg.drop_first().len() implies cmd_key(
            #[trigger] seg.drop_first()[t],
        ) != k by {
            assert(seg.drop_first()[t] == seg[t + 1]);
        }
        lemma_put_wins_in_seg(step(st, seg.first()), seg.drop_first(), i - 1, k, v);
    }
}

/// Generation order decides recency: a `Put` of `k` in segment `si`,
/// with no later record about `k` in that segment nor in any newer
/// segment, decides what `get` returns for `k` — whatever any older
/// segment said.
pub proof fn lemma_newer_generation_wins(
    segs: Seq<Vec<Command>>,
    si: int,
    i: int,
    k: Seq<char>,
    v: Seq<char>,
)
    requires
        0 <= si < segs.len(),
        0 <= i < segs[si]@.len(),
        is_put(segs[si]@[i]),
        cmd_key(segs[si]@[i]) == k,
        put_value(segs[si]@[i]) == v,
        forall|t: int| i < t < segs[si]@.len() ==> cmd_key(#[trigger] segs[si]@[t]) != k,
        forall|s: int| si < s < segs.len() ==> !seg_touches((#[trigger] segs[s])@, k),
    ensures
        recover_map(segs).contains_key(k),
        recover_map(segs)[k] == v,
    decreases segs.len(),
{
    let last = segs.len() - 1;
    assert(segs.take(last).push(segs[last]) =~= segs);
    lemma_run_segs_push(init_state(), segs.take(last), segs[last]);
    if si == last {
        lemma_put_wins_in_seg(run_segs(init_state(), segs.take(last)), segs[last]@, i, k, v);
    } else {
        lemma_newer_generation_wins(segs.take(last), si, i, k, v);
        lemma_untouched_seg(recover(segs.take(last)), segs[last]@, k);
    }
}

} // verus!
