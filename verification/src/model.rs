//! The mathematical model of the store: replaying a log of segments.
//!
//! A store's observable state is the map obtained by folding every
//! record of every segment, in generation order, over the empty map:
//! a `Put` binds its key, a `Remove` tombstone unbinds it.  The same
//! fold counts the records made stale (a superseded `Put` or a
//! consumed tombstone), which drives the compaction trigger.

use vstd::prelude::*;

use crate::command::{Command, Put, Remove};

verus! {

/// The key a record speaks about.
pub open spec fn cmd_key(c: Command) -> Seq<char> {
    match c {
        Command::Put(p) => p.key@,
        Command::Rm(r) => r.key@,
    }
}

/// Whether a record is a `Put`.
pub open spec fn is_put(c: Command) -> bool {
    c is Put
}

/// The value a `Put` record carries.
pub open spec fn put_value(c: Command) -> Seq<char> {
    match c {
        Command::Put(p) => p.value@,
        Command::Rm(_) => Seq::empty(),
    }
}

/// Replay state: the live map so far and the count of stale records.
pub type RunState = (Map<Seq<char>, Seq<char>>, nat);

/// The state a fresh, empty store starts from.
pub open spec fn init_state() -> RunState {
    (Map::empty(), 0nat)
}

/// One record applied to the replay state.  A `Put` over a bound key
/// and a `Remove` of a bound key each make one record stale.
pub open spec fn step(st: RunState, c: Command) -> RunState {
    match c {
        Command::Put(p) => (
            st.0.insert(p.key@, p.value@),
            st.1 + if st.0.contains_key(p.key@) {
                1nat
            } else {
                0nat
            },
        ),
        Command::Rm(r) => (
            st.0.remove(r.key@),
            st.1 + if st.0.contains_key(r.key@) {
                1nat
            } else {
                0nat
            },
        ),
    }
}

/// Replay one segment, front to back.
pub open spec fn run_seg(st: RunState, seg: Seq<Command>) -> RunState
    decreases seg.len(),
{
    if seg.len() == 0 {
        st
    } else {
        run_seg(step(st, seg.first()), seg.drop_first())
    }
}

/// Replay a list of segments, oldest generation first.
pub open spec fn run_segs(st: RunState, segs: Seq<Vec<Command>>) -> RunState
    decreases segs.len(),
{
    if segs.len() == 0 {
        st
    } else {
        run_segs(run_seg(st, segs.first()@), segs.drop_first())
    }
}

/// Full recovery: replay every segment over the empty state.
pub open spec fn recover(segs: Seq<Vec<Command>>) -> RunState {
    run_segs(init_state(), segs)
}

/// The live key-value map a segment list denotes.
pub open spec fn recover_map(segs: Seq<Vec<Command>>) -> Map<Seq<char>, Seq<char>> {
    recover(segs).0
}

/// How many records of a segment list are stale.
pub open spec fn staleness_of(segs: Seq<Vec<Command>>) -> nat {
    recover(segs).1
}

/// Appending one record to a segment extends its replay by one step.
pub proof fn lemma_run_seg_push(st: RunState, seg: Seq<Command>, c: Command)
    ensures
        run_seg(st, seg.push(c)) == step(run_seg(st, seg), c),
    decreases seg.len(),
{
    if seg.len() == 0 {
        assert(seg.push(c).first() == c);
        assert(seg.push(c).drop_first() =~= Seq::<Command>::empty());
        assert(run_seg(st, seg.push(c)) == run_seg(step(st, c), seg.push(c).drop_first()));
        assert(run_seg(st, seg.push(c)) == step(st, c));
        assert(run_seg(st, seg) == st);
    } else {
        assert(seg.push(c).first() == seg.first());
        assert(seg.push(c).drop_first() =~= seg.drop_first().push(c));
        lemma_run_seg_push(step(st, seg.first()), seg.drop_first(), c);
        assert(run_seg(st, seg.push(c)) == run_seg(
            step(st, seg.first()),
            seg.drop_first().push(c),
        ));
        assert(run_seg(st, seg) == run_seg(step(st, seg.first()), seg.drop_first()));
    }
}

/// Appending one segment to the list extends its replay by that segment.
pub proof fn lemma_run_segs_push(st: RunState, segs: Seq<Vec<Command>>, v: Vec<Command>)
    ensures
        run_segs(st, segs.push(v)) == run_seg(run_segs(st, segs), v@),
    decreases segs.len(),
{
    if segs.len() == 0 {
        assert(segs.push(v).first() == v);
        assert(segs.push(v).drop_first() =~= Seq::<Vec<Command>>::empty());
        assert(run_segs(st, segs.push(v)) == run_segs(run_seg(st, v@), segs.push(v).drop_first()));
        assert(run_segs(st, segs) == st);
    } else {
        assert(segs.push(v).first() == segs.first());
        assert(segs.push(v).drop_first() =~= segs.drop_first().push(v));
        lemma_run_segs_push(run_seg(st, segs.first()@), segs.drop_first(), v);
        assert(run_segs(st, segs.push(v)) == run_segs(
            run_seg(st, segs.first()@),
            segs.drop_first().push(v),
        ));
        assert(run_segs(st, segs) == run_segs(run_seg(st, segs.first()@), segs.drop_first()));
    }
}

/// Appending one record to the last segment of a log advances the
/// whole log's replay by exactly one step.
pub proof fn lemma_append_record(segs: Seq<Vec<Command>>, segs2: Seq<Vec<Command>>, c: Command)
    requires
        segs.len() >= 1,
        segs2.len() == segs.len(),
        forall|i: int| 0 <= i < segs.len() - 1 ==> segs2[i] == segs[i],
        segs2.last()@ == segs.last()@.push(c),
    ensures
        recover(segs2) == step(recover(segs), c),
{
    let last = segs.len() - 1;
    assert(segs.take(last).push(segs[last]) =~= segs);
    assert(segs2.take(last).push(segs2[last]) =~= segs2);
    assert(segs2.take(last) =~= segs.take(last));
    lemma_run_segs_push(init_state(), segs.take(last), segs[last]);
    lemma_run_segs_push(init_state(), segs.take(last), segs2[last]);
    lemma_run_seg_push(run_segs(init_state(), segs.take(last)), segs[last]@, c);
}

} // verus!
