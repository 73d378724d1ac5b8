//! What the bot keeps while it runs: the viewers seen in chat with the point
//! ticks they still have, the points service, and the text commands in
//! effect.
use vstd::prelude::*;
use crate::config::{Config, DEFAULT_STREAMER_NAME};
use crate::data_server::{add_fits, both_users, served_add, DbView, MyDatabase};
use crate::keyed::KeyedList;
use crate::text::{lowercase, views};

verus! {

/// A viewer seen in chat.
pub struct Chatter {
    /// How many more point ticks the viewer takes part in.
    pub remaining_ticks: i64,
}

impl Default for Chatter {
    /// A viewer with no ticks left.
    fn default() -> (r: Self)
        ensures
            r.remaining_ticks == 0,
    {
        Chatter { remaining_ticks: 0 }
    }
}

/// The viewers seen in chat, by lowercased name, and the points service.
pub struct Data {
    pub chatters: KeyedList<Chatter>,
    pub data_server: MyDatabase,
}

/// The names of the viewers with ticks left, in the order of the list.
pub open spec fn awarded_names(keys: Seq<Seq<char>>, vals: Seq<Chatter>) -> Seq<Seq<char>>
    decreases keys.len(),
{
    if keys.len() == 0 {
        Seq::empty()
    } else {
        let r = awarded_names(keys.drop_last(), vals.drop_last());
        if vals.last().remaining_ticks > 0 {
            r.push(keys.last())
        } else {
            r
        }
    }
}

/// The points service after `a` points are added for viewer `v` in the
/// streamer's channel; a request whose total would not fit in an `i32` only
/// looks up or adds the two users.
pub open spec fn award_step(d: DbView, v: Seq<char>, a: int) -> DbView {
    let s = lowercase(DEFAULT_STREAMER_NAME@);
    if add_fits(d, s, lowercase(v), a) {
        served_add(d, s, lowercase(v), a).0
    } else {
        both_users(d, s, lowercase(v)).0
    }
}

/// The points service after `a` points are added for each viewer in turn.
pub open spec fn award_all(d: DbView, viewers: Seq<Seq<char>>, a: int) -> DbView
    decreases viewers.len(),
{
    if viewers.len() == 0 {
        d
    } else {
        award_step(award_all(d, viewers.drop_last(), a), viewers.last(), a)
    }
}

/// The ticks a viewer has after one round of `give_points`.
pub open spec fn ticked(c: Chatter) -> Chatter {
    if c.remaining_ticks > 0 {
        Chatter { remaining_ticks: (c.remaining_ticks - 1) as i64 }
    } else {
        c
    }
}

/// Every viewer with ticks left has one fewer.
pub open spec fn after_tick(m: Map<Seq<char>, Chatter>) -> Map<Seq<char>, Chatter> {
    Map::new(|k: Seq<char>| m.contains_key(k), |k: Seq<char>| ticked(m[k]))
}

impl Data {
    /// The chatter table is well formed.
    pub open spec fn wf(&self) -> bool {
        &&& self.chatters.wf()
        &&& self.data_server.wf()
    }

    /// No viewer seen yet, and the points service that the caller connected
    /// to, with whatever it holds.
    pub fn new(data_server: MyDatabase) -> (r: Data)
        requires
            data_server.wf(),
        ensures
            r.wf(),
            r.chatters@ == Map::<Seq<char>, Chatter>::empty(),
            r.data_server == data_server,
    {
        Data { chatters: KeyedList::new(), data_server }
    }

    /// Sets the point ticks that `name` has left to `ticks`, adding the viewer
    /// if it is new.
    pub fn set_ticks(&mut self, name: String, ticks: i64)
        requires
            old(self).wf(),
        ensures
            final(self).wf(),
            final(self).chatters@ == old(self).chatters@.insert(name@, Chatter { remaining_ticks: ticks }),
            final(self).data_server == old(self).data_server,
    {
        self.chatters.insert(name, Chatter { remaining_ticks: ticks });
    }

    /// One point tick: every viewer with ticks left takes part and has one
    /// tick fewer. Returns the names of the viewers that take part, each once.
    pub fn award_ticks(&mut self) -> (awarded: Vec<String>)
        requires
            old(self).wf(),
        ensures
            final(self).wf(),
            final(self).chatters@ == after_tick(old(self).chatters@),
            final(self).data_server == old(self).data_server,
            views(awarded@) == awarded_names(old(self).chatters.key_seq(), old(self).chatters.val_seq()),
            views(awarded@).no_duplicates(),
            forall|k: Seq<char>|
                #[trigger] views(awarded@).contains(k) <==> (
                old(self).chatters@.contains_key(k) && old(self).chatters@[k].remaining_ticks > 0),
    {
        let ghost old_list = self.chatters;
        proof {
            old_list.lemma_shape();
        }
        let n = self.chatters.len();
        let mut awarded: Vec<String> = Vec::new();
        let mut i: usize = 0;
        assert(views(awarded@) =~= awarded_names(old_list.key_seq().take(0), old_list.val_seq().take(0)));
        while i < n
            invariant
                i <= n,
                n == old_list.key_seq().len(),
                self.chatters.wf(),
                self.chatters.key_seq() == old_list.key_seq(),
                self.chatters.val_seq().len() == n,
                old_list.val_seq().len() == n,
                old_list.key_seq().no_duplicates(),
                forall|j: int| 0 <= j < i ==> #[trigger] self.chatters.val_seq()[j] == ticked(old_list.val_seq()[j]),
                forall|j: int| i <= j < n ==> #[trigger] self.chatters.val_seq()[j] == old_list.val_seq()[j],
                views(awarded@).no_duplicates(),
                views(awarded@) == awarded_names(old_list.key_seq().take(i as int), old_list.val_seq().take(i as int)),
                self.data_server == old(self).data_server,
                forall|t: int| 0 <= t < awarded@.len() ==> exists|j: int| 0 <= j < i
                    && old_list.key_seq()[j] == #[trigger] awarded@[t]@,
                forall|j: int| 0 <= j < i ==> (old_list.val_seq()[j].remaining_ticks > 0 <==>
                    views(awarded@).contains(#[trigger] old_list.key_seq()[j])),
            decreases n - i,
        {
            proof {
                self.chatters.lemma_shape();
            }
            let t = self.chatters.value_at(i).remaining_ticks;
            proof {
                let ks = old_list.key_seq().take(i + 1);
                let vs = old_list.val_seq().take(i + 1);
                assert(ks.drop_last() =~= old_list.key_seq().take(i as int));
                assert(vs.drop_last() =~= old_list.val_seq().take(i as int));
                assert(ks.last() == old_list.key_seq()[i as int]);
                assert(vs.last() == old_list.val_seq()[i as int]);
            }
            if t > 0 {
                let name = self.chatters.key_at(i).clone();
                let ghost before = views(awarded@);
                let ghost old_aw = awarded@;
                proof {
                    assert(!before.contains(old_list.key_seq()[i as int])) by {
                        if before.contains(old_list.key_seq()[i as int]) {
                            let t2 = choose|t2: int| 0 <= t2 < before.len() && before[t2] == old_list.key_seq()[i as int];
                            assert(awarded@[t2]@ == before[t2]);
                        }
                    }
                }
                awarded.push(name);
                proof {
                    let after = views(awarded@);
                    assert(after =~= before.push(old_list.key_seq()[i as int]));
                    assert forall|a: int, b: int| 0 <= a < after.len() && 0 <= b < after.len() && a != b
                        implies after[a] != after[b] by {
                        if a < before.len() && b < before.len() {
                            assert(before[a] != before[b]);
                        } else if a == before.len() {
                            assert(before.contains(before[b]));
                        } else {
                            assert(before.contains(before[a]));
                        }
                    }
                    assert forall|j: int| 0 <= j < i + 1 implies (old_list.val_seq()[j].remaining_ticks > 0 <==>
                        after.contains(#[trigger] old_list.key_seq()[j])) by {
                        if j == i {
                            assert(after[before.len() as int] == old_list.key_seq()[j]);
                        } else {
                            if before.contains(old_list.key_seq()[j]) {
                                let t2 = choose|t2: int| 0 <= t2 < before.len() && before[t2] == old_list.key_seq()[j];
                                assert(after[t2] == old_list.key_seq()[j]);
                            }
                            if after.contains(old_list.key_seq()[j]) {
                                let t2 = choose|t2: int| 0 <= t2 < after.len() && after[t2] == old_list.key_seq()[j];
                                if t2 == before.len() {
                                    assert(old_list.key_seq()[i as int] == old_list.key_seq()[j]);
                                } else {
                                    assert(before[t2] == old_list.key_seq()[j]);
                                }
                            }
                        }
                    }
                    assert forall|t2: int| 0 <= t2 < awarded@.len() implies exists|j: int| 0 <= j < i + 1
                        && old_list.key_seq()[j] == #[trigger] awarded@[t2]@ by {
                        if t2 < old_aw.len() {
                            assert(awarded@[t2] == old_aw[t2]);
                            let j = choose|j: int| 0 <= j < i && old_list.key_seq()[j] == old_aw[t2]@;
                            assert(old_list.key_seq()[j] == awarded@[t2]@);
                        } else {
                            assert(awarded@[t2]@ == old_list.key_seq()[i as int]);
                        }
                    }
                }
                self.chatters.set_value_at(i, Chatter { remaining_ticks: t - 1 });
            } else {
                proof {
                    let cur = views(awarded@);
                    assert(!cur.contains(old_list.key_seq()[i as int])) by {
                        if cur.contains(old_list.key_seq()[i as int]) {
                            let t2 = choose|t2: int| 0 <= t2 < cur.len() && cur[t2] == old_list.key_seq()[i as int];
                            assert(awarded@[t2]@ == cur[t2]);
                        }
                    }
                }
            }
            i += 1;
        }
        proof {
            assert(old_list.key_seq().take(n as int) =~= old_list.key_seq());
            assert(old_list.val_seq().take(n as int) =~= old_list.val_seq());
            self.chatters.lemma_shape();
            let aw = views(awarded@);
            assert forall|k: Seq<char>| #[trigger] self.chatters@.contains_key(k)
                == after_tick(old_list@).contains_key(k) by {}
            assert forall|k: Seq<char>| self.chatters@.contains_key(k) implies
                #[trigger] self.chatters@[k] == after_tick(old_list@)[k] by {
                let j = self.chatters.key_seq().index_of(k);
                self.chatters.lemma_view_at(j);
                old_list.lemma_view_at(j);
            }
            assert(self.chatters@ =~= after_tick(old_list@));
            assert forall|k: Seq<char>| #[trigger] aw.contains(k) <==> (
                old_list@.contains_key(k) && old_list@[k].remaining_ticks > 0) by {
                if aw.contains(k) {
                    let t2 = choose|t2: int| 0 <= t2 < aw.len() && aw[t2] == k;
                    assert(awarded@[t2]@ == aw[t2]);
                    let j = choose|j: int| 0 <= j < n && old_list.key_seq()[j] == awarded@[t2]@;
                    old_list.lemma_view_at(j);
                }
                if old_list@.contains_key(k) {
                    let j = old_list.key_seq().index_of(k);
                    old_list.lemma_view_at(j);
                }
            }
        }
        awarded
    }
}

/// How commands are recognized, the text commands in effect, the
/// configuration they came from and the viewers seen so far.
pub struct Runtime {
    pub command_prefix: char,
    pub shoutout_short: char,
    pub config: Config,
    pub commands: KeyedList<String>,
    pub data: Data,
}

impl Runtime {
    /// The tables of the runtime are well formed.
    pub open spec fn wf(&self) -> bool {
        &&& self.commands.wf()
        &&& self.data.wf()
    }
}

/// One point tick: each viewer with ticks left has one tick fewer, and the
/// points service adds `points_per_tick` points for each of them, in the
/// order of the viewer list, in the channel of `DEFAULT_STREAMER_NAME`. A
/// request whose total would not fit only looks up or adds its users; when
/// `points_per_tick` does not fit in an `i32`, no request is made.
pub fn give_points(rt: &mut Runtime)
    requires
        old(rt).wf(),
    ensures
        final(rt).wf(),
        final(rt).data.chatters@ == after_tick(old(rt).data.chatters@),
        final(rt).data.data_server@ == if i32::MIN <= old(rt).config.points.points_per_tick <= i32::MAX {
            award_all(
                old(rt).data.data_server@,
                awarded_names(old(rt).data.chatters.key_seq(), old(rt).data.chatters.val_seq()),
                old(rt).config.points.points_per_tick as int,
            )
        } else {
            old(rt).data.data_server@
        },
        final(rt).command_prefix == old(rt).command_prefix,
        final(rt).shoutout_short == old(rt).shoutout_short,
        final(rt).config == old(rt).config,
        final(rt).commands == old(rt).commands,
        awarded_names(old(rt).data.chatters.key_seq(), old(rt).data.chatters.val_seq()).no_duplicates(),
        forall|k: Seq<char>|
            #[trigger] awarded_names(old(rt).data.chatters.key_seq(), old(rt).data.chatters.val_seq()).contains(k) <==> (
            old(rt).data.chatters@.contains_key(k) && old(rt).data.chatters@[k].remaining_ticks > 0),
{
    let awarded = rt.data.award_ticks();
    let per_tick = rt.config.points.points_per_tick;
    if per_tick < -0x8000_0000 || per_tick > 0x7fff_ffff {
        return;
    }
    let amount = per_tick as i32;
    let ghost start = rt.data.data_server@;
    let ghost names = views(awarded@);
    let mut i: usize = 0;
    assert(names.take(0) =~= Seq::<Seq<char>>::empty());
    while i < awarded.len()
        invariant
            i <= awarded@.len(),
            names == views(awarded@),
            rt.data.wf(),
            rt.commands.wf(),
            rt.data.chatters@ == after_tick(old(rt).data.chatters@),
            rt.commands == old(rt).commands,
            rt.config == old(rt).config,
            rt.command_prefix == old(rt).command_prefix,
            rt.shoutout_short == old(rt).shoutout_short,
            start == old(rt).data.data_server@,
            names == awarded_names(old(rt).data.chatters.key_seq(), old(rt).data.chatters.val_seq()),
            amount as int == old(rt).config.points.points_per_tick,
            rt.data.data_server@ == award_all(start, names.take(i as int), amount as int),
        decreases awarded@.len() - i,
    {
        let _ = rt.data.data_server.try_add_points(DEFAULT_STREAMER_NAME, awarded[i].as_str(), amount);
        proof {
            assert(names.take(i + 1).drop_last() =~= names.take(i as int));
            assert(names.take(i + 1).last() == awarded@[i as int]@);
        }
        i += 1;
    }
    assert(names.take(awarded@.len() as int) =~= names);
}

/// The viewers after `n` point ticks with no message in between.
pub open spec fn ticked_rounds(m: Map<Seq<char>, Chatter>, n: nat) -> Map<Seq<char>, Chatter>
    decreases n,
{
    if n == 0 {
        m
    } else {
        after_tick(ticked_rounds(m, (n - 1) as nat))
    }
}

/// A viewer given `t` ticks (as a chat message gives `ticks_per_message`)
/// has `t - n` of them after `n` more point ticks and none once `t` have
/// passed, so it takes part in exactly the next `t` ticks.
pub proof fn law_ticks_count_down(m: Map<Seq<char>, Chatter>, k: Seq<char>, t: i64, n: nat)
    requires
        t >= 0,
    ensures
        ticked_rounds(m.insert(k, Chatter { remaining_ticks: t }), n).contains_key(k),
        ticked_rounds(m.insert(k, Chatter { remaining_ticks: t }), n)[k].remaining_ticks
            == if n <= t { t - n } else { 0 },
        ticked_rounds(m.insert(k, Chatter { remaining_ticks: t }), n)[k].remaining_ticks > 0 <==> n < t,
    decreases n,
{
    if n > 0 {
        law_ticks_count_down(m, k, t, (n - 1) as nat);
    }
}

proof fn lemma_states_are_rounds(states: Seq<Map<Seq<char>, Chatter>>, k: int)
    requires
        0 <= k < states.len(),
        forall|i: int| 0 <= i < states.len() - 1 ==> #[trigger] states[i + 1] == after_tick(states[i]),
    ensures
        states[k] == ticked_rounds(states[0], k as nat),
    decreases k,
{
    if k > 0 {
        lemma_states_are_rounds(states, k - 1);
        assert(states[(k - 1) + 1] == after_tick(states[k - 1]));
    }
}

/// Successive calls of `give_points` with no chat message in between (each
/// viewer table `after_tick` of the one before, as `give_points` ensures): a
/// viewer that starts with `t >= 0` ticks has `t - i` of them after `i` calls
/// (none once `t` calls have passed), so it is awarded points in exactly the
/// first `t` calls.
pub proof fn law_successive_ticks(states: Seq<Map<Seq<char>, Chatter>>, v: Seq<char>, t: i64)
    requires
        states.len() >= 1,
        states[0].contains_key(v),
        states[0][v].remaining_ticks == t,
        t >= 0,
        forall|i: int| 0 <= i < states.len() - 1 ==> #[trigger] states[i + 1] == after_tick(states[i]),
    ensures
        forall|i: int| 0 <= i < states.len() ==> #[trigger] states[i].contains_key(v)
            && states[i][v].remaining_ticks == (if i <= t { t - i } else { 0 }),
        forall|i: int| 0 <= i < states.len() ==> (#[trigger] states[i][v].remaining_ticks > 0 <==> i < t),
{
    assert(states[0].insert(v, Chatter { remaining_ticks: t }) =~= states[0]);
    assert forall|i: int| 0 <= i < states.len() implies #[trigger] states[i].contains_key(v)
        && states[i][v].remaining_ticks == (if i <= t { t - i } else { 0 }) by {
        lemma_states_are_rounds(states, i);
        law_ticks_count_down(states[0], v, t, i as nat);
    }
    assert forall|i: int| 0 <= i < states.len() implies (#[trigger] states[i][v].remaining_ticks > 0 <==> i < t) by {
        lemma_states_are_rounds(states, i);
        law_ticks_count_down(states[0], v, t, i as nat);
    }
}

proof fn lemma_awarded_names_contains(keys: Seq<Seq<char>>, vals: Seq<Chatter>, k: Seq<char>)
    requires
        keys.len() == vals.len(),
    ensures
        awarded_names(keys, vals).contains(k) <==> exists|j: int|
            0 <= j < keys.len() && keys[j] == k && #[trigger] vals[j].remaining_ticks > 0,
    decreases keys.len(),
{
    if keys.len() > 0 {
        let kd = keys.drop_last();
        let vd = vals.drop_last();
        lemma_awarded_names_contains(kd, vd, k);
        let r = awarded_names(kd, vd);
        let last = keys.len() - 1;
        if exists|j: int| 0 <= j < keys.len() && keys[j] == k && #[trigger] vals[j].remaining_ticks > 0 {
            let j = choose|j: int| 0 <= j < keys.len() && keys[j] == k && #[trigger] vals[j].remaining_ticks > 0;
            if j < last {
                assert(kd[j] == k && vd[j].remaining_ticks > 0);
                assert(r.contains(k));
                if vals.last().remaining_ticks > 0 {
                    assert(r.push(keys.last())[r.index_of(k)] == k);
                }
            } else {
                assert(awarded_names(keys, vals) == r.push(keys.last()));
                assert(r.push(keys.last())[r.len() as int] == k);
            }
        }
        if awarded_names(keys, vals).contains(k) {
            let aw = awarded_names(keys, vals);
            let t = aw.index_of(k);
            if vals.last().remaining_ticks > 0 && t == r.len() {
                assert(keys[last] == k && vals[last].remaining_ticks > 0);
            } else {
                assert(aw[t] == r[t]);
                assert(r.contains(k));
                let j = choose|j: int| 0 <= j < kd.len() && kd[j] == k && #[trigger] vd[j].remaining_ticks > 0;
                assert(keys[j] == k && vals[j].remaining_ticks > 0);
            }
        }
    }
}

/// A point tick awards exactly the viewers that have ticks left.
pub proof fn lemma_awarded(l: KeyedList<Chatter>, k: Seq<char>)
    requires
        l.wf(),
    ensures
        awarded_names(l.key_seq(), l.val_seq()).contains(k) <==> (l@.contains_key(k) && l@[k].remaining_ticks > 0),
{
    l.lemma_shape();
    lemma_awarded_names_contains(l.key_seq(), l.val_seq(), k);
    if exists|j: int| 0 <= j < l.key_seq().len() && l.key_seq()[j] == k && #[trigger] l.val_seq()[j].remaining_ticks > 0 {
        let j = choose|j: int| 0 <= j < l.key_seq().len() && l.key_seq()[j] == k && #[trigger] l.val_seq()[j].remaining_ticks > 0;
        l.lemma_view_at(j);
    }
    if l@.contains_key(k) {
        let j = l.key_seq().index_of(k);
        l.lemma_view_at(j);
    }
}

/// Successive calls of `give_points` with no chat message in between (each
/// viewer list `after_tick` of the one before, as `give_points` ensures): a
/// viewer that starts with `t >= 0` ticks is among the viewers awarded
/// points in exactly the first `t` calls, once in each (the awarded names
/// have no duplicates).
pub proof fn law_awarded_in_first_ticks(lists: Seq<KeyedList<Chatter>>, v: Seq<char>, t: i64)
    requires
        lists.len() >= 1,
        forall|i: int| 0 <= i < lists.len() ==> #[trigger] lists[i].wf(),
        lists[0]@.contains_key(v),
        lists[0]@[v].remaining_ticks == t,
        t >= 0,
        forall|i: int| 0 <= i < lists.len() - 1 ==> #[trigger] lists[i + 1]@ == after_tick(lists[i]@),
    ensures
        forall|i: int| 0 <= i < lists.len() ==>
            (#[trigger] awarded_names(lists[i].key_seq(), lists[i].val_seq()).contains(v) <==> i < t),
{
    let states = lists.map_values(|l: KeyedList<Chatter>| l@);
    assert forall|i: int| 0 <= i < states.len() - 1 implies #[trigger] states[i + 1] == after_tick(states[i]) by {
        assert(lists[i + 1]@ == after_tick(lists[i]@));
    }
    law_successive_ticks(states, v, t);
    assert forall|i: int| 0 <= i < lists.len() implies
        (#[trigger] awarded_names(lists[i].key_seq(), lists[i].val_seq()).contains(v) <==> i < t) by {
        assert(states[i] == lists[i]@);
        lemma_awarded(lists[i], v);
    }
}

} // verus!
