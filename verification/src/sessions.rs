//! Session detection: splitting each user's placement history into
//! sessions wherever the pause between two placements exceeds a limit,
//! and keeping the sessions that placed enough pixels.

use vstd::prelude::*;

verus! {

/// One placement event as the session scan needs it: who placed, when,
/// and whether moderation retracted the placement (retractions do not
/// extend sessions).
#[derive(Debug)]
pub struct SessionEvent {
    pub user: u64,
    pub timestamp: i64,
    pub retracted: bool,
}

/// The mathematical shadow of a [`SessionEvent`].
pub ghost struct SessionEventModel {
    pub user: int,
    pub timestamp: int,
    pub retracted: bool,
}

impl View for SessionEvent {
    type V = SessionEventModel;

    open spec fn view(&self) -> SessionEventModel {
        SessionEventModel {
            user: self.user as int,
            timestamp: self.timestamp as int,
            retracted: self.retracted,
        }
    }
}

impl DeepView for SessionEvent {
    type V = SessionEventModel;

    open spec fn deep_view(&self) -> SessionEventModel {
        self.view()
    }
}

/// An open session: the user, the session's start, the latest placement
/// seen, and how many placements it holds so far.
pub ghost struct ActiveModel {
    pub user: int,
    pub start: int,
    pub last: int,
    pub count: int,
}

/// A finished session worth reporting: the user, the session's start,
/// and how many placements it held.
pub ghost struct SessionModel {
    pub user: int,
    pub start: int,
    pub count: int,
}

/// The first index holding `user` in the open-session list, or the
/// list's length when the user has no open session.
pub open spec fn spec_find(active: Seq<ActiveModel>, user: int) -> int
    decreases active.len(),
{
    if active.len() == 0 {
        0
    } else if active[0].user == user {
        0
    } else {
        1 + spec_find(active.drop_first(), user)
    }
}

/// `spec_find` returns the least matching index, or the length.
pub proof fn lemma_find_characterization(active: Seq<ActiveModel>, user: int)
    ensures
        0 <= spec_find(active, user) <= active.len(),
        spec_find(active, user) < active.len() ==> active[spec_find(active, user)].user == user,
        forall|j: int| 0 <= j < spec_find(active, user) ==> (#[trigger] active[j]).user != user,
    decreases active.len(),
{
    if active.len() != 0 && active[0].user != user {
        lemma_find_characterization(active.drop_first(), user);
        assert forall|j: int| 0 <= j < spec_find(active, user) implies (#[trigger] active[j]).user
            != user by {
            if j > 0 {
                assert(active.drop_first()[j - 1] == active[j]);
            }
        }
    }
}

/// An index below every earlier mismatch that itself matches is the one
/// `spec_find` returns.
pub proof fn lemma_find_converse(active: Seq<ActiveModel>, user: int, i: int)
    requires
        0 <= i < active.len(),
        active[i].user == user,
        forall|j: int| 0 <= j < i ==> (#[trigger] active[j]).user != user,
    ensures
        spec_find(active, user) == i,
    decreases active.len(),
{
    if i > 0 {
        lemma_find_converse(active.drop_first(), user, i - 1);
    }
}

/// A whole scan that found no match returns the length.
pub proof fn lemma_find_missing(active: Seq<ActiveModel>, user: int)
    requires
        forall|j: int| 0 <= j < active.len() ==> (#[trigger] active[j]).user != user,
    ensures
        spec_find(active, user) == active.len(),
    decreases active.len(),
{
    if active.len() != 0 {
        lemma_find_missing(active.drop_first(), user);
    }
}

/// One event folded into the scan state. A retraction changes nothing.
/// A user's first event opens a session of one placement. Within the
/// pause limit the open session extends; past it the open session is
/// reported — if it placed more than `min_pixels` pixels — and a fresh
/// one starts.
pub open spec fn spec_session_step(
    active: Seq<ActiveModel>,
    done: Seq<SessionModel>,
    ev: SessionEventModel,
    max_pause: int,
    min_pixels: int,
) -> (Seq<ActiveModel>, Seq<SessionModel>) {
    if ev.retracted {
        (active, done)
    } else {
        let i = spec_find(active, ev.user);
        if i == active.len() {
            (
                active.push(
                    ActiveModel {
                        user: ev.user,
                        start: ev.timestamp,
                        last: ev.timestamp,
                        count: 1,
                    },
                ),
                done,
            )
        } else {
            let a = active[i];
            if ev.timestamp - a.last > max_pause {
                let done1 = if a.count > min_pixels {
                    done.push(SessionModel { user: a.user, start: a.start, count: a.count })
                } else {
                    done
                };
                (
                    active.update(
                        i,
                        ActiveModel {
                            user: ev.user,
                            start: ev.timestamp,
                            last: ev.timestamp,
                            count: 1,
                        },
                    ),
                    done1,
                )
            } else {
                (
                    active.update(
                        i,
                        ActiveModel { user: a.user, start: a.start, last: ev.timestamp, count: a.count + 1 },
                    ),
                    done,
                )
            }
        }
    }
}

/// The scan state folded over a whole event sequence.
pub open spec fn spec_session_run(
    active: Seq<ActiveModel>,
    done: Seq<SessionModel>,
    evs: Seq<SessionEventModel>,
    max_pause: int,
    min_pixels: int,
) -> (Seq<ActiveModel>, Seq<SessionModel>)
    decreases evs.len(),
{
    if evs.len() == 0 {
        (active, done)
    } else {
        let st = spec_session_step(active, done, evs[0], max_pause, min_pixels);
        spec_session_run(st.0, st.1, evs.drop_first(), max_pause, min_pixels)
    }
}

/// The open sessions from index `i` on that still deserve reporting when
/// the stream ends.
pub open spec fn spec_session_tail(
    active: Seq<ActiveModel>,
    i: int,
    min_pixels: int,
) -> Seq<SessionModel>
    decreases active.len() - i,
{
    if i < 0 || i >= active.len() {
        Seq::<SessionModel>::empty()
    } else {
        let rest = spec_session_tail(active, i + 1, min_pixels);
        if active[i].count > min_pixels {
            seq![
                SessionModel {
                    user: active[i].user,
                    start: active[i].start,
                    count: active[i].count,
                },
            ] + rest
        } else {
            rest
        }
    }
}

/// Every session a whole scan reports: those closed by a long pause, in
/// closing order, then the open ones left at the stream's end, in the
/// order the users first appeared.
pub open spec fn spec_sessions(
    evs: Seq<SessionEventModel>,
    max_pause: int,
    min_pixels: int,
) -> Seq<SessionModel> {
    let end = spec_session_run(
        Seq::<ActiveModel>::empty(),
        Seq::<SessionModel>::empty(),
        evs,
        max_pause,
        min_pixels,
    );
    end.1 + spec_session_tail(end.0, 0, min_pixels)
}

/// Appending one event to a scan folds one more step onto its end.
pub proof fn lemma_session_run_push(
    active: Seq<ActiveModel>,
    done: Seq<SessionModel>,
    evs: Seq<SessionEventModel>,
    ev: SessionEventModel,
    max_pause: int,
    min_pixels: int,
)
    ensures
        spec_session_run(active, done, evs.push(ev), max_pause, min_pixels) == ({
            let a = spec_session_run(active, done, evs, max_pause, min_pixels);
            spec_session_step(a.0, a.1, ev, max_pause, min_pixels)
        }),
    decreases evs.len(),
{
    if evs.len() == 0 {
        let st = spec_session_step(active, done, ev, max_pause, min_pixels);
        assert(evs.push(ev)[0] == ev);
        assert(evs.push(ev).drop_first() =~= Seq::<SessionEventModel>::empty());
        assert(spec_session_run(st.0, st.1, evs.push(ev).drop_first(), max_pause, min_pixels)
            == st);
        assert(spec_session_run(active, done, evs, max_pause, min_pixels) == (active, done));
    } else {
        assert(evs.push(ev)[0] == evs[0]);
        assert(evs.push(ev).drop_first() =~= evs.drop_first().push(ev));
        let st = spec_session_step(active, done, evs[0], max_pause, min_pixels);
        lemma_session_run_push(st.0, st.1, evs.drop_first(), ev, max_pause, min_pixels);
    }
}

/// Every open session a scan leaves holds a count of at least one and
/// no more than the number of events folded, and timestamps within the
/// range the events span.
pub open spec fn active_bounded(active: Seq<ActiveModel>, folded: int) -> bool {
    forall|j: int|
        0 <= j < active.len() ==> 0 <= (#[trigger] active[j]).start <= i64::MAX && 0
            <= active[j].last <= i64::MAX && 1 <= active[j].count <= folded
}

/// One step keeps the open sessions bounded.
pub proof fn lemma_session_step_bounded(
    active: Seq<ActiveModel>,
    done: Seq<SessionModel>,
    ev: SessionEventModel,
    max_pause: int,
    min_pixels: int,
    folded: int,
)
    requires
        active_bounded(active, folded),
        0 <= ev.timestamp <= i64::MAX,
        folded >= 0,
    ensures
        active_bounded(
            spec_session_step(active, done, ev, max_pause, min_pixels).0,
            folded + 1,
        ),
{
    let next = spec_session_step(active, done, ev, max_pause, min_pixels).0;
    assert forall|j: int| 0 <= j < next.len() implies 0 <= (#[trigger] next[j]).start <= i64::MAX
        && 0 <= next[j].last <= i64::MAX && 1 <= next[j].count <= folded + 1 by {
        if !ev.retracted {
            lemma_find_characterization(active, ev.user);
        }
        if j < active.len() {
            assert(active_bounded(active, folded));
            assert(0 <= (active[j]).start <= i64::MAX && 0 <= active[j].last <= i64::MAX && 1
                <= active[j].count <= folded);
        }
    }
}

/// Detects sessions over a whole event stream: wherever a user pauses
/// longer than `max_pause` seconds their session closes, and every
/// session that placed more than `min_pixels` pixels is reported —
/// closed sessions first, then whatever is still open when the stream
/// ends. Each reported entry is the user, the session's first
/// timestamp, and its placement count.
pub fn sessions(events: &Vec<SessionEvent>, max_pause: i64, min_pixels: i64) -> (r: Vec<
    (u64, i64, i64),
>)
    requires
        forall|i: int| 0 <= i < events@.len() ==> (#[trigger] events@[i])@.timestamp >= 0,
        events@.len() <= i64::MAX,
    ensures
        ({
            let expected = spec_sessions(events.deep_view(), max_pause as int, min_pixels as int);
            &&& r@.len() == expected.len()
            &&& forall|i: int|
                0 <= i < r@.len() ==> ((#[trigger] r@[i]).0 as int, r@[i].1 as int, r@[i].2 as int)
                    == ((#[trigger] expected[i]).user, expected[i].start, expected[i].count)
        }),
{
    let ghost evs = events.deep_view();
    let mut active: Vec<(u64, i64, i64, i64)> = Vec::new();
    let mut done: Vec<(u64, i64, i64)> = Vec::new();
    proof {
        assert(evs.take(0) =~= Seq::<SessionEventModel>::empty());
    }
    let mut i: usize = 0;
    while i < events.len()
        invariant
            i <= events@.len(),
            evs == events.deep_view(),
            evs.len() == events@.len(),
            events@.len() <= i64::MAX,
            forall|j: int| 0 <= j < events@.len() ==> (#[trigger] events@[j])@.timestamp >= 0,
            ({
                let st = spec_session_run(
                    Seq::<ActiveModel>::empty(),
                    Seq::<SessionModel>::empty(),
                    evs.take(i as int),
                    max_pause as int,
                    min_pixels as int,
                );
                &&& active@.len() == st.0.len()
                &&& forall|j: int|
                    0 <= j < active@.len() ==> ({
                        let a = #[trigger] active@[j];
                        st.0[j] == (ActiveModel {
                            user: a.0 as int,
                            start: a.1 as int,
                            last: a.2 as int,
                            count: a.3 as int,
                        })
                    })
                &&& done@.len() == st.1.len()
                &&& forall|j: int|
                    0 <= j < done@.len() ==> ({
                        let d = #[trigger] done@[j];
                        st.1[j] == (SessionModel {
                            user: d.0 as int,
                            start: d.1 as int,
                            count: d.2 as int,
                        })
                    })
                &&& active_bounded(st.0, i as int)
            }),
        decreases events@.len() - i,
    {
        let ghost st = spec_session_run(
            Seq::<ActiveModel>::empty(),
            Seq::<SessionModel>::empty(),
            evs.take(i as int),
            max_pause as int,
            min_pixels as int,
        );
        let ev = &events[i];
        proof {
            assert(ev@ == evs[i as int]);
            lemma_session_run_push(
                Seq::<ActiveModel>::empty(),
                Seq::<SessionModel>::empty(),
                evs.take(i as int),
                evs[i as int],
                max_pause as int,
                min_pixels as int,
            );
            assert(evs.take(i as int).push(evs[i as int]) =~= evs.take(i + 1));
            lemma_session_step_bounded(
                st.0,
                st.1,
                evs[i as int],
                max_pause as int,
                min_pixels as int,
                i as int,
            );
        }
        if !ev.retracted {
            // Scan for the user's open session; the model's least-index
            // search returns the same slot.
            let mut k: usize = 0;
            let n = active.len();
            while k < n && active[k].0 != ev.user
                invariant
                    k <= n,
                    n == active@.len(),
                    forall|j: int| 0 <= j < k ==> (#[trigger] active@[j]).0 != ev.user,
                decreases n - k,
            {
                k += 1;
            }
            proof {
                assert forall|j: int| 0 <= j < k implies (#[trigger] st.0[j]).user != ev@.user by {
                    assert((active@[j]).0 != ev.user);
                }
                if k < n {
                    assert(st.0[k as int].user == active@[k as int].0);
                    lemma_find_converse(st.0, ev@.user, k as int);
                } else {
                    lemma_find_missing(st.0, ev@.user);
                }
            }
            if k == n {
                active.push((ev.user, ev.timestamp, ev.timestamp, 1));
            } else {
                let a = active[k];
                proof {
                    assert(st.0[k as int] == (ActiveModel {
                        user: a.0 as int,
                        start: a.1 as int,
                        last: a.2 as int,
                        count: a.3 as int,
                    }));
                    assert(active_bounded(st.0, i as int));
                    assert(1 <= st.0[k as int].count <= i as int);
                }
                if ev.timestamp - a.2 > max_pause {
                    if a.3 > min_pixels {
                        done.push((a.0, a.1, a.3));
                    }
                    active.set(k, (ev.user, ev.timestamp, ev.timestamp, 1));
                } else {
                    active.set(k, (a.0, a.1, ev.timestamp, a.3 + 1));
                }
            }
        }
        i += 1;
    }
    proof {
        assert(evs.take(i as int) =~= evs);
    }
    let ghost endst = spec_session_run(
        Seq::<ActiveModel>::empty(),
        Seq::<SessionModel>::empty(),
        evs,
        max_pause as int,
        min_pixels as int,
    );
    let n = active.len();
    let mut k: usize = 0;
    while k < n
        invariant
            k <= n,
            n == active@.len(),
            active@.len() == endst.0.len(),
            forall|j: int|
                0 <= j < active@.len() ==> ({
                    let a = #[trigger] active@[j];
                    endst.0[j] == (ActiveModel {
                        user: a.0 as int,
                        start: a.1 as int,
                        last: a.2 as int,
                        count: a.3 as int,
                    })
                }),
            ({
                let expected = endst.1 + spec_session_tail(endst.0, 0, min_pixels as int);
                &&& done@.len() + spec_session_tail(endst.0, k as int, min_pixels as int).len()
                    == expected.len()
                &&& forall|j: int|
                    0 <= j < done@.len() ==> ({
                        let d = #[trigger] done@[j];
                        expected[j] == (SessionModel {
                            user: d.0 as int,
                            start: d.1 as int,
                            count: d.2 as int,
                        })
                    })
                &&& spec_session_tail(endst.0, k as int, min_pixels as int) == expected.subrange(
                    done@.len() as int,
                    expected.len() as int,
                )
            }),
        decreases n - k,
    {
        let a = active[k];
        proof {
            assert(endst.0[k as int] == (ActiveModel {
                user: a.0 as int,
                start: a.1 as int,
                last: a.2 as int,
                count: a.3 as int,
            }));
            let expected = endst.1 + spec_session_tail(endst.0, 0, min_pixels as int);
            let tail_here = spec_session_tail(endst.0, k as int, min_pixels as int);
            let tail_next = spec_session_tail(endst.0, k + 1, min_pixels as int);
            if endst.0[k as int].count > min_pixels {
                assert(tail_here == seq![
                    SessionModel {
                        user: endst.0[k as int].user,
                        start: endst.0[k as int].start,
                        count: endst.0[k as int].count,
                    },
                ] + tail_next);
                assert(tail_here[0] == (SessionModel {
                    user: endst.0[k as int].user,
                    start: endst.0[k as int].start,
                    count: endst.0[k as int].count,
                }));
                assert(expected[done@.len() as int] == tail_here[0]);
                let dl = done@.len() as int;
                assert(tail_here.len() == expected.len() - dl);
                assert forall|m: int| 0 <= m < tail_next.len() implies tail_next[m] == expected[dl
                    + 1 + m] by {
                    assert(tail_here[m + 1] == tail_next[m]);
                    assert(tail_here[m + 1] == expected.subrange(dl, expected.len() as int)[m
                        + 1]);
                }
                assert(tail_next =~= expected.subrange(dl + 1, expected.len() as int));
            } else {
                assert(tail_here == tail_next);
            }
        }
        if a.3 > min_pixels {
            done.push((a.0, a.1, a.3));
        }
        k += 1;
    }
    proof {
        assert(spec_session_tail(endst.0, n as int, min_pixels as int).len() == 0);
    }
    done
}

} // verus!
