//! What a deletion does to a filesystem that nobody else changes meanwhile.

use vstd::prelude::*;

use crate::fsat::{
    after_reply, deletes, dir_mode, nesteds, request_of, subvol_mode, ReplyView, RequestView, Stat,
    TaskView,
};

verus! {

// ---- a filesystem ----

/// An entry: what it is, and what it holds.
#[verifier::ext_equal]
pub struct Entry {
    pub st: Stat,
    pub kids: Seq<Named>,
}

/// An entry under its name.
#[verifier::ext_equal]
pub struct Named {
    pub name: Seq<u8>,
    pub entry: Entry,
}

/// Whether only directories hold anything, and no two entries of one share a
/// name, all the way down.
pub open spec fn sound(e: Entry) -> bool
    decreases e,
{
    &&& !dir_mode(e.st) ==> e.kids.len() == 0
    &&& sound_all(e.kids)
}

/// The same for the entries of a directory.
pub open spec fn sound_all(kids: Seq<Named>) -> bool
    decreases kids,
{
    kids.len() == 0 || {
        &&& sound(kids.first().entry)
        &&& sound_all(kids.drop_first())
        &&& forall|i: int| 0 < i < kids.len() ==> (#[trigger] kids[i]).name != kids.first().name
    }
}

/// Whether there is no subvolume among the entries or below them.
pub open spec fn subvol_free(kids: Seq<Named>) -> bool
    decreases kids,
{
    kids.len() == 0 || {
        &&& !subvol_mode(kids.first().entry.st)
        &&& subvol_free(kids.first().entry.kids)
        &&& subvol_free(kids.drop_first())
    }
}

/// An open directory, and the name under which it was entered.
#[verifier::ext_equal]
pub struct Level {
    pub via: Seq<u8>,
    pub kids: Seq<Named>,
}

/// Where `n` stands among the entries.
pub open spec fn at(kids: Seq<Named>, n: Seq<u8>) -> int {
    choose|i: int| 0 <= i < kids.len() && (#[trigger] kids[i]).name == n
}

/// Whether there is an entry `n`.
pub open spec fn has(kids: Seq<Named>, n: Seq<u8>) -> bool {
    exists|i: int| 0 <= i < kids.len() && (#[trigger] kids[i]).name == n
}

/// The open directories with other entries in the innermost.
pub open spec fn with_top(w: Seq<Level>, kids: Seq<Named>) -> Seq<Level> {
    w.update(w.len() - 1, Level { kids, ..w.last() })
}

/// What the kernel does and answers; nothing where the request fails. Directories
/// are removed only when empty, and subvolumes destroyed only when there are
/// none below them.
pub open spec fn kernel(w: Seq<Level>, q: RequestView) -> Option<(Seq<Level>, ReplyView)> {
    let kids = w.last().kids;
    match q {
        RequestView::Stat(n) => if has(kids, n) {
            Some((w, ReplyView::Stat(kids[at(kids, n)].entry.st)))
        } else {
            None
        },
        RequestView::Enter(n) => if has(kids, n) && dir_mode(kids[at(kids, n)].entry.st) {
            let e = kids[at(kids, n)].entry;
            Some((w.push(Level { via: n, kids: e.kids }), ReplyView::Stat(e.st)))
        } else {
            None
        },
        RequestView::Open(n) => if has(kids, n) && dir_mode(kids[at(kids, n)].entry.st) {
            let e = kids[at(kids, n)].entry;
            Some((w.push(Level { via: n, kids: e.kids }), ReplyView::Done))
        } else {
            None
        },
        RequestView::List => Some(
            (w, ReplyView::Names(kids.map_values(|x: Named| x.name))),
        ),
        RequestView::Leave => if w.len() >= 2 {
            let below = w.last();
            let up = w.drop_last();
            let ks = up.last().kids;
            let i = at(ks, below.via);
            Some(
                (
                    with_top(
                        up,
                        ks.update(
                            i,
                            Named { entry: Entry { kids: below.kids, ..ks[i].entry }, ..ks[i] },
                        ),
                    ),
                    ReplyView::Done,
                ),
            )
        } else {
            None
        },
        RequestView::Unlink(n) => if has(kids, n) && !dir_mode(kids[at(kids, n)].entry.st) {
            Some((with_top(w, kids.remove(at(kids, n))), ReplyView::Done))
        } else {
            None
        },
        RequestView::Rmdir(n) => if has(kids, n) && dir_mode(kids[at(kids, n)].entry.st)
            && !subvol_mode(kids[at(kids, n)].entry.st) && kids[at(kids, n)].entry.kids.len()
            == 0 {
            Some((with_top(w, kids.remove(at(kids, n))), ReplyView::Done))
        } else {
            None
        },
        RequestView::Destroy(n) => if has(kids, n) && subvol_mode(kids[at(kids, n)].entry.st)
            && subvol_free(kids[at(kids, n)].entry.kids) {
            Some((with_top(w, kids.remove(at(kids, n))), ReplyView::Done))
        } else {
            None
        },
    }
}

/// A filesystem and what is left to do.
#[verifier::ext_equal]
pub struct Run {
    pub w: Seq<Level>,
    pub tasks: Seq<TaskView>,
}

/// One request and its reply; nothing where the request fails, or the deletion
/// gives up.
pub open spec fn step(s: Run) -> Option<Run> {
    match kernel(s.w, request_of(s.tasks.last())) {
        Some((w, r)) => match after_reply(s.tasks, r) {
            Some(tasks) => Some(Run { w, tasks }),
            None => None,
        },
        None => None,
    }
}

/// `k` requests and their replies, for tasks above the first `base`; nothing where
/// those are done earlier.
pub open spec fn steps(s: Run, k: nat, base: nat) -> Option<Run>
    decreases k,
{
    if k == 0 {
        Some(s)
    } else if s.tasks.len() <= base {
        None
    } else {
        match step(s) {
            Some(t) => steps(t, (k - 1) as nat, base),
            None => None,
        }
    }
}

// ---- the proof ----

proof fn lemma_then(s: Run, j: nat, t: Run, k: nat, base: nat)
    requires
        steps(s, j, base) == Some(t),
    ensures
        steps(s, j + k, base) == steps(t, k, base),
    decreases j,
{
    if j > 0 {
        lemma_then(step(s)->0, (j - 1) as nat, t, k, base);
    }
}

proof fn lemma_one(s: Run, base: nat)
    requires
        s.tasks.len() > base,
    ensures
        steps(s, 1, base) == step(s),
{
    if step(s) is Some {
        assert(steps(step(s)->0, 0, base) == step(s));
    }
}

/// What is done above more tasks is done above fewer.
proof fn lemma_lower(s: Run, k: nat, base: nat, lower: nat)
    requires
        steps(s, k, base) is Some,
        lower <= base,
    ensures
        steps(s, k, lower) == steps(s, k, base),
    decreases k,
{
    if k > 0 {
        lemma_lower(step(s)->0, (k - 1) as nat, base, lower);
    }
}

proof fn lemma_sound_each(kids: Seq<Named>, i: int)
    requires
        sound_all(kids),
        0 <= i < kids.len(),
    ensures
        sound(kids[i].entry),
        forall|j: int| 0 <= j < kids.len() && j != i ==> (#[trigger] kids[j]).name != kids[i].name,
    decreases kids.len(),
{
    if i > 0 {
        lemma_sound_each(kids.drop_first(), i - 1);
        assert(kids.drop_first()[i - 1] == kids[i]);
        assert forall|j: int| 0 <= j < kids.len() && j != i implies (#[trigger] kids[j]).name
            != kids[i].name by {
            if j > 0 {
                assert(kids.drop_first()[j - 1] == kids[j]);
            } else {
                assert(kids[i].name != kids.first().name);
            }
        }
    }
}

/// What is left of entries once the subvolumes among and below them are gone.
pub open spec fn purged(kids: Seq<Named>) -> Seq<Named>
    decreases kids,
{
    if kids.len() == 0 {
        Seq::empty()
    } else {
        let x = kids.first();
        let rest = purged(kids.drop_first());
        if subvol_mode(x.entry.st) {
            rest
        } else {
            seq![Named { entry: Entry { kids: purged(x.entry.kids), ..x.entry }, ..x }] + rest
        }
    }
}

proof fn lemma_purged_free(kids: Seq<Named>)
    ensures
        subvol_free(purged(kids)),
    decreases kids,
{
    if kids.len() > 0 {
        let x = kids.first();
        lemma_purged_free(kids.drop_first());
        if !subvol_mode(x.entry.st) {
            lemma_purged_free(x.entry.kids);
            let p = purged(kids);
            assert(p.first().entry.kids == purged(x.entry.kids));
            assert(p.drop_first() =~= purged(kids.drop_first()));
        }
    }
}

/// Entries whose names are told apart, as far as position `i` is concerned.
spec fn lone(kids: Seq<Named>, i: int) -> bool {
    &&& 0 <= i < kids.len()
    &&& forall|j: int| 0 <= j < kids.len() && j != i ==> (#[trigger] kids[j]).name != kids[i].name
}

proof fn lemma_lone(kids: Seq<Named>, i: int)
    requires
        lone(kids, i),
    ensures
        has(kids, kids[i].name),
        at(kids, kids[i].name) == i,
{
    assert(kids[i].name == kids[i].name);
    let j = at(kids, kids[i].name);
}

/// Deleting the entry at `i` of the open directory.
proof fn lemma_delete(w: Seq<Level>, rest: Seq<TaskView>, i: int) -> (k: nat)
    requires
        w.len() > 0,
        lone(w.last().kids, i),
        sound(w.last().kids[i].entry),
    ensures
        steps(
            Run { w, tasks: rest.push(TaskView::Delete(w.last().kids[i].name)) },
            k,
            rest.len(),
        ) == Some(Run { w: with_top(w, w.last().kids.remove(i)), tasks: rest }),
    decreases w.last().kids[i].entry, 2nat,
{
    let base = rest.len();
    let kids = w.last().kids;
    let n = kids[i].name;
    let e = kids[i].entry;
    lemma_lone(kids, i);
    let s0 = Run { w, tasks: rest.push(TaskView::Delete(n)) };
    assert(s0.tasks.drop_last() =~= rest);
    let end = Run { w: with_top(w, kids.remove(i)), tasks: rest };
    if !dir_mode(e.st) {
        let s1 = Run { w, tasks: rest.push(TaskView::Unlink(n)) };
        assert(step(s0) == Some(s1));
        assert(s1.tasks.drop_last() =~= rest);
        assert(step(s1) == Some(end));
        lemma_one(s0, base);
        lemma_one(s1, base);
        lemma_then(s0, 1, s1, 1, base);
        2
    } else {
        let s1 = Run { w, tasks: rest.push(TaskView::Check(n, e.st)) };
        assert(step(s0) == Some(s1));
        assert(s1.tasks.drop_last() =~= rest);
        let inside = w.push(Level { via: n, kids: e.kids });
        let sub = subvol_mode(e.st);
        let last = if sub {
            TaskView::Destroy(n)
        } else {
            TaskView::Rmdir(n)
        };
        let up = rest.push(last).push(TaskView::Leave);
        let search = if sub {
            TaskView::Seek
        } else {
            TaskView::Empty
        };
        let s2 = Run { w: inside, tasks: up.push(search) };
        assert(up.push(search) =~= rest + seq![last, TaskView::Leave, search]);
        assert(step(s1) == Some(s2));
        lemma_one(s0, base);
        lemma_one(s1, base);
        lemma_then(s0, 1, s1, 1, base);
        assert(inside.last().kids == e.kids);
        let left = if sub {
            purged(e.kids)
        } else {
            Seq::empty()
        };
        let m = if sub {
            lemma_seek(inside, up)
        } else {
            lemma_empty(inside, up)
        };
        let s3 = Run { w: with_top(inside, left), tasks: up };
        lemma_lower(s2, m, up.len(), base);
        assert(steps(s2, m, base) == Some(s3));
        lemma_then(s0, 2, s2, m, base);
        // Back in the directory, the entry holds what is left.
        let x = Named { entry: Entry { kids: left, ..e }, name: n };
        let after = kids.update(i, x);
        let s4 = Run { w: with_top(w, after), tasks: rest.push(last) };
        assert(up.drop_last() =~= rest.push(last));
        assert(s3.w.drop_last() =~= w);
        assert(step(s3) == Some(s4));
        lemma_one(s3, base);
        lemma_then(s0, 2 + m, s3, 1, base);
        assert(lone(after, i)) by {
            assert forall|j: int| 0 <= j < after.len() && j != i implies (#[trigger] after[j]).name
                != after[i].name by {
                assert(kids[j].name != kids[i].name);
            }
        }
        lemma_lone(after, i);
        lemma_purged_free(e.kids);
        assert(s4.tasks.drop_last() =~= rest);
        assert(s4.w.last().kids == after);
        assert(after.remove(i) =~= kids.remove(i));
        assert(with_top(s4.w, after.remove(i)) =~= with_top(w, kids.remove(i)));
        assert(step(s4) == Some(end));
        lemma_one(s4, base);
        lemma_then(s0, 3 + m, s4, 1, base);
        4 + m
    }
}

/// Deleting every entry of the open directory.
proof fn lemma_empty(w: Seq<Level>, rest: Seq<TaskView>) -> (k: nat)
    requires
        w.len() > 0,
        sound_all(w.last().kids),
    ensures
        steps(Run { w, tasks: rest.push(TaskView::Empty) }, k, rest.len()) == Some(
            Run { w: with_top(w, Seq::empty()), tasks: rest },
        ),
    decreases w.last().kids, 1nat,
{
    let base = rest.len();
    let kids = w.last().kids;
    let names = kids.map_values(|x: Named| x.name);
    let s0 = Run { w, tasks: rest.push(TaskView::Empty) };
    let s1 = Run { w, tasks: rest + deletes(names) };
    assert(s0.tasks.drop_last() =~= rest);
    assert(step(s0) == Some(s1));
    lemma_one(s0, base);
    let m = lemma_delete_all(w, rest);
    lemma_then(s0, 1, s1, m, base);
    1 + m
}

proof fn lemma_delete_all(w: Seq<Level>, rest: Seq<TaskView>) -> (k: nat)
    requires
        w.len() > 0,
        sound_all(w.last().kids),
    ensures
        steps(
            Run { w, tasks: rest + deletes(w.last().kids.map_values(|x: Named| x.name)) },
            k,
            rest.len(),
        ) == Some(Run { w: with_top(w, Seq::empty()), tasks: rest }),
    decreases w.last().kids, 0nat,
{
    let base = rest.len();
    let kids = w.last().kids;
    let names = kids.map_values(|x: Named| x.name);
    let s0 = Run { w, tasks: rest + deletes(names) };
    if kids.len() == 0 {
        assert(s0.tasks =~= rest);
        assert(kids =~= Seq::empty());
        assert(with_top(w, kids) =~= w);
        0
    } else {
        let tail = kids.drop_first();
        let later = tail.map_values(|x: Named| x.name);
        let under = rest + deletes(later);
        assert(s0.tasks =~= under.push(TaskView::Delete(kids[0].name)));
        lemma_sound_each(kids, 0);
        let m = lemma_delete(w, under, 0);
        lemma_lower(s0, m, under.len(), base);
        let w1 = with_top(w, tail);
        assert(kids.remove(0) =~= tail);
        let s1 = Run { w: w1, tasks: under };
        assert(w1.last().kids == tail);
        let j = lemma_delete_all(w1, rest);
        lemma_then(s0, m, s1, j, base);
        assert(with_top(w1, Seq::empty()) =~= with_top(w, Seq::empty()));
        m + j
    }
}

/// Destroying every subvolume at or below an entry of the open directory.
proof fn lemma_seek(w: Seq<Level>, rest: Seq<TaskView>) -> (k: nat)
    requires
        w.len() > 0,
        sound_all(w.last().kids),
    ensures
        steps(Run { w, tasks: rest.push(TaskView::Seek) }, k, rest.len()) == Some(
            Run { w: with_top(w, purged(w.last().kids)), tasks: rest },
        ),
    decreases w.last().kids, 1nat,
{
    let base = rest.len();
    let kids = w.last().kids;
    let names = kids.map_values(|x: Named| x.name);
    let s0 = Run { w, tasks: rest.push(TaskView::Seek) };
    let s1 = Run { w, tasks: rest + nesteds(names) };
    assert(s0.tasks.drop_last() =~= rest);
    assert(step(s0) == Some(s1));
    lemma_one(s0, base);
    assert(Seq::<Named>::empty() + kids =~= kids);
    assert(Seq::<Named>::empty() + purged(kids) =~= purged(kids));
    let m = lemma_nested_all(w, rest, Seq::empty(), kids);
    lemma_then(s0, 1, s1, m, base);
    1 + m
}

/// The same where `done` was searched already and `todo` is left.
proof fn lemma_nested_all(
    w: Seq<Level>,
    rest: Seq<TaskView>,
    done: Seq<Named>,
    todo: Seq<Named>,
) -> (k: nat)
    requires
        w.len() > 0,
        w.last().kids == done + todo,
        sound_all(todo),
        forall|i: int, j: int|
            0 <= i < done.len() && 0 <= j < todo.len() ==> (#[trigger] done[i]).name
                != (#[trigger] todo[j]).name,
    ensures
        steps(
            Run { w, tasks: rest + nesteds(todo.map_values(|x: Named| x.name)) },
            k,
            rest.len(),
        ) == Some(Run { w: with_top(w, done + purged(todo)), tasks: rest }),
    decreases todo, 0nat,
{
    let base = rest.len();
    let kids = done + todo;
    let names = todo.map_values(|x: Named| x.name);
    let s0 = Run { w, tasks: rest + nesteds(names) };
    if todo.len() == 0 {
        assert(s0.tasks =~= rest);
        assert(done + purged(todo) =~= kids);
        assert(with_top(w, kids) =~= w);
        0
    } else {
        let x = todo[0];
        let n = x.name;
        let e = x.entry;
        let tail = todo.drop_first();
        let later = tail.map_values(|x: Named| x.name);
        let under = rest + nesteds(later);
        let at0 = done.len() as int;
        assert(s0.tasks =~= under.push(TaskView::Nested(n)));
        assert(s0.tasks.drop_last() =~= under);
        lemma_sound_each(todo, 0);
        assert(kids[at0] == x);
        assert(lone(kids, at0)) by {
            assert forall|j: int| 0 <= j < kids.len() && j != at0 implies (#[trigger] kids[j]).name
                != kids[at0].name by {
                if j < at0 {
                    assert(done[j].name != todo[0].name);
                } else {
                    assert(kids[j] == todo[j - at0]);
                }
            }
        }
        lemma_lone(kids, at0);
        lemma_one(s0, base);
        if subvol_mode(e.st) {
            let s1 = Run { w, tasks: under.push(TaskView::Delete(n)) };
            assert(step(s0) == Some(s1));
            let m = lemma_delete(w, under, at0);
            lemma_lower(s1, m, under.len(), base);
            let w2 = with_top(w, kids.remove(at0));
            let s2 = Run { w: w2, tasks: under };
            lemma_then(s0, 1, s1, m, base);
            assert(kids.remove(at0) =~= done + tail);
            assert(w2.last().kids == done + tail);
            lemma_apart_tail(done, todo);
            let j = lemma_nested_all(w2, rest, done, tail);
            lemma_then(s0, 1 + m, s2, j, base);
            assert(with_top(w2, done + purged(tail)) =~= with_top(w, done + purged(todo)));
            1 + m + j
        } else {
            let y = Named { entry: Entry { kids: purged(e.kids), ..e }, name: n };
            let more = done.push(y);
            let now = more + tail;
            let w3 = with_top(w, now);
            let s3 = Run { w: w3, tasks: under };
            let m = if dir_mode(e.st) {
                let s1 = Run { w, tasks: under.push(TaskView::Into(n)) };
                assert(step(s0) == Some(s1));
                assert(s1.tasks.drop_last() =~= under);
                let inside = w.push(Level { via: n, kids: e.kids });
                let up = under.push(TaskView::Leave);
                let s2 = Run { w: inside, tasks: up.push(TaskView::Seek) };
                assert(up.push(TaskView::Seek) =~= under + seq![
                    TaskView::Leave,
                    TaskView::Seek,
                ]);
                assert(step(s1) == Some(s2));
                lemma_one(s1, base);
                lemma_then(s0, 1, s1, 1, base);
                assert(inside.last().kids == e.kids);
                let d = lemma_seek(inside, up);
                lemma_lower(s2, d, up.len(), base);
                let s4 = Run { w: with_top(inside, purged(e.kids)), tasks: up };
                lemma_then(s0, 2, s2, d, base);
                assert(up.drop_last() =~= under);
                assert(s4.w.drop_last() =~= w);
                assert(kids.update(at0, y) =~= now);
                assert(step(s4) == Some(s3));
                lemma_one(s4, base);
                lemma_then(s0, 2 + d, s4, 1, base);
                3 + d
            } else {
                assert(e.kids.len() == 0);
                assert(purged(e.kids) =~= e.kids);
                assert(y == x);
                assert(now =~= kids);
                assert(with_top(w, kids) =~= w);
                assert(step(s0) == Some(s3));
                1
            };
            assert(steps(s0, m, base) == Some(s3));
            assert(w3.last().kids == more + tail);
            lemma_apart_tail(done, todo);
            assert forall|i: int, j: int|
                0 <= i < more.len() && 0 <= j < tail.len() implies (#[trigger] more[i]).name != (
            #[trigger] tail[j]).name by {
                assert(tail[j] == todo[j + 1]);
                if i < done.len() {
                    assert(done[i].name != todo[j + 1].name);
                }
            }
            let j = lemma_nested_all(w3, rest, more, tail);
            lemma_then(s0, m, s3, j, base);
            assert(more + purged(tail) =~= done + purged(todo));
            assert(with_top(w3, more + purged(tail)) =~= with_top(w, done + purged(todo)));
            m + j
        }
    }
}

proof fn lemma_apart_tail(done: Seq<Named>, todo: Seq<Named>)
    requires
        todo.len() > 0,
        sound_all(todo),
        forall|i: int, j: int|
            0 <= i < done.len() && 0 <= j < todo.len() ==> (#[trigger] done[i]).name
                != (#[trigger] todo[j]).name,
    ensures
        sound_all(todo.drop_first()),
        forall|i: int, j: int|
            0 <= i < done.len() && 0 <= j < todo.drop_first().len() ==> (#[trigger] done[i]).name
                != (#[trigger] todo.drop_first()[j]).name,
{
    assert forall|i: int, j: int|
        0 <= i < done.len() && 0 <= j < todo.drop_first().len() implies (#[trigger] done[i]).name
        != (#[trigger] todo.drop_first()[j]).name by {
        assert(done[i].name != todo[j + 1].name);
    }
}

/// In a filesystem that nobody else changes, a deletion comes to an end, with
/// the entry gone, be it a file, a directory tree or a subvolume, and every other
/// entry as it was, in its directory and in those above. No request fails on the way: directories are removed when
/// they are empty, and subvolumes destroyed when those nested in them are gone.
pub proof fn law_deletion_succeeds(w: Seq<Level>, i: int)
    requires
        w.len() > 0,
        sound_all(w.last().kids),
        0 <= i < w.last().kids.len(),
    ensures
        exists|k: nat| #[trigger]
            steps(
                Run { w, tasks: seq![TaskView::Delete(w.last().kids[i].name)] },
                k,
                0,
            ) == Some(
                Run { w: with_top(w, w.last().kids.remove(i)), tasks: Seq::empty() },
            ),
{
    lemma_sound_each(w.last().kids, i);
    let k = lemma_delete(w, Seq::empty(), i);
    let t = TaskView::Delete(w.last().kids[i].name);
    assert(Seq::<TaskView>::empty().push(t) =~= seq![t]);
    assert(steps(Run { w, tasks: seq![t] }, k, 0) is Some);
}

// ---- the search below a subvolume ----

/// The search for subvolumes below a directory comes to an end, with the subvolumes
/// among its entries and below them gone, and everything else as it was, in the
/// directory and in those above. On the way nothing is asked to be unlinked and no
/// directory to be removed: subvolumes are destroyed, and that is all.
pub proof fn law_search_takes_subvolumes_only(w: Seq<Level>, rest: Seq<TaskView>)
    requires
        w.len() > 0,
        sound_all(w.last().kids),
    ensures
        subvol_free(purged(w.last().kids)),
        exists|k: nat| #[trigger] searches_in(w, rest, k),
{
    let s0 = Run { w, tasks: rest.push(TaskView::Seek) };
    let k = lemma_seek(w, rest);
    lemma_purged_free(w.last().kids);
    assert forall|j: nat| j < k implies spares_files(#[trigger] steps(s0, j, rest.len())) by {
        lemma_under_way(s0, j, k, rest.len());
        lemma_quiet(w, rest, j);
        let s = steps(s0, j, rest.len())->0;
        assert(s.tasks[s.tasks.len() - 1] == s.tasks.last());
    }
    assert(searches_in(w, rest, k));
}

/// Whether `k` requests take the subvolumes out of the innermost directory, each of
/// them sparing everything else.
pub open spec fn searches_in(w: Seq<Level>, rest: Seq<TaskView>, k: nat) -> bool {
    let s0 = Run { w, tasks: rest.push(TaskView::Seek) };
    &&& steps(s0, k, rest.len()) == Some(
        Run { w: with_top(w, purged(w.last().kids)), tasks: rest },
    )
    &&& forall|j: nat| j < k ==> spares_files(#[trigger] steps(s0, j, rest.len()))
}

/// Whether the next request neither unlinks anything nor removes a directory.
pub open spec fn spares_files(s: Option<Run>) -> bool {
    s matches Some(r) && r.tasks.len() > 0 && !(request_of(r.tasks.last()) is Unlink) && !(
    request_of(r.tasks.last()) is Rmdir)
}

/// Before the end there is something left to do.
proof fn lemma_under_way(s: Run, j: nat, k: nat, base: nat)
    requires
        steps(s, k, base) is Some,
        j < k,
    ensures
        steps(s, j, base) matches Some(t) && t.tasks.len() > base,
    decreases j,
{
    if j > 0 {
        lemma_under_way(step(s)->0, (j - 1) as nat, (k - 1) as nat, base);
    }
}

/// Whether the tasks above the first `base` delete nothing but subvolumes.
spec fn quiet(s: Run, base: nat) -> bool {
    let kids = s.w.last().kids;
    &&& s.tasks.len() >= base
    &&& forall|i: int|
        base <= i < s.tasks.len() ==> match #[trigger] s.tasks[i] {
            TaskView::Unlink(_) => false,
            TaskView::Rmdir(_) => false,
            TaskView::Empty => false,
            TaskView::Delete(n) => i == s.tasks.len() - 1 && (has(kids, n) ==> subvol_mode(
                kids[at(kids, n)].entry.st,
            )),
            TaskView::Check(_, st) => subvol_mode(st),
            _ => true,
        }
}

proof fn lemma_quiet_step(s: Run, base: nat)
    requires
        quiet(s, base),
        s.tasks.len() > base,
        step(s) is Some,
    ensures
        quiet(step(s)->0, base),
{
    let t = step(s)->0;
    let rest = s.tasks.drop_last();
    let top = s.tasks[s.tasks.len() - 1];
    assert(top == s.tasks.last());
    assert forall|i: int| base <= i < rest.len() implies #[trigger] rest[i] == s.tasks[i] by {}
    assert forall|i: int| base <= i < t.tasks.len() implies match #[trigger] t.tasks[i] {
        TaskView::Unlink(_) => false,
        TaskView::Rmdir(_) => false,
        TaskView::Empty => false,
        TaskView::Delete(n) => i == t.tasks.len() - 1 && (has(t.w.last().kids, n) ==> subvol_mode(
            t.w.last().kids[at(t.w.last().kids, n)].entry.st,
        )),
        TaskView::Check(_, st) => subvol_mode(st),
        _ => true,
    } by {
        if i < rest.len() {
            assert(t.tasks[i] == rest[i]);
            assert(s.tasks[i] == rest[i]);
        }
    }
}

proof fn lemma_quiet(w: Seq<Level>, rest: Seq<TaskView>, j: nat)
    requires
        steps(Run { w, tasks: rest.push(TaskView::Seek) }, j, rest.len()) is Some,
    ensures
        quiet(steps(Run { w, tasks: rest.push(TaskView::Seek) }, j, rest.len())->0, rest.len()),
    decreases j,
{
    let base = rest.len();
    let s0 = Run { w, tasks: rest.push(TaskView::Seek) };
    if j > 0 {
        let i = (j - 1) as nat;
        lemma_under_way(s0, i, j, base);
        lemma_quiet(w, rest, i);
        let s = steps(s0, i, base)->0;
        lemma_then(s0, i, s, 1, base);
        lemma_one(s, base);
        lemma_quiet_step(s, base);
    }
}

} // verus!
