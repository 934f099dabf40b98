//! What the server shows after a history of heartbeats: the last word of every device that was heard of
//! lately.

use vstd::prelude::*;
use crate::server::{
    after_beat,
    age,
    clean_spec,
    devices_in,
    distinct,
    entry_of,
    joined,
    lists,
    only_the_silent_are_dropped,
    place_of,
    room_kept,
    room_of,
    shows,
    swept,
    the_store_stays_in_bounds,
    well_kept,
    younger,
    Beat,
    DeviceOut,
    EntryView,
    RoomView,
    Store,
    ALIVE,
    KEPT,
};
use crate::text::{
    is_permutation,
    lemma_every_index_is_listed,
    lemma_first_index,
    lemma_first_index_facts,
    lemma_pair_total,
    pair_less,
};

verus! {

/// Something that happened to a store, and when.
pub enum Happening {
    /// A heartbeat came in and was taken or refused.
    Beat(Beat, u64),
    /// The devices of some token were listed, or old heartbeats were dropped.
    Look(u64),
}

/// When something happened.
pub open spec fn time_of(x: Happening) -> u64 {
    match x {
        Happening::Beat(_, now) => now,
        Happening::Look(now) => now,
    }
}

/// When the last thing happened.
pub open spec fn end_of(h: Seq<Happening>) -> u64 {
    if h.len() == 0 {
        0
    } else {
        time_of(h.last())
    }
}

/// Nothing happened before what came first.
pub open spec fn in_time(h: Seq<Happening>) -> bool
    decreases h.len(),
{
    h.len() == 0 || (in_time(h.drop_last()) && end_of(h.drop_last()) <= end_of(h))
}

/// The rooms of a store, empty at first, after all this.
pub open spec fn after_all(h: Seq<Happening>) -> Seq<RoomView>
    decreases h.len(),
{
    if h.len() == 0 {
        Seq::empty()
    } else {
        let before = after_all(h.drop_last());
        match h.last() {
            Happening::Beat(b, now) => after_beat(before, b, now).0,
            Happening::Look(now) => swept(before, now),
        }
    }
}

/// The last happening is a heartbeat of this device that was taken.
pub open spec fn ends_in_beat(h: Seq<Happening>, token: Seq<char>, device: Seq<char>, name: Seq<char>) -> bool {
    h.last() matches Happening::Beat(b, now) && {
        &&& after_beat(after_all(h.drop_last()), b, now).1 is None
        &&& b.token@ == token
        &&& entry_of(b, now).device == device
        &&& entry_of(b, now).name == name
    }
}

/// What the latest heartbeat of a device that was taken said.
pub open spec fn last_word(
    h: Seq<Happening>,
    token: Seq<char>,
    device: Seq<char>,
    name: Seq<char>,
) -> Option<EntryView>
    decreases h.len(),
{
    if h.len() == 0 {
        None
    } else if ends_in_beat(h, token, device, name) {
        match h.last() {
            Happening::Beat(b, now) => Some(entry_of(b, now)),
            Happening::Look(_) => None,
        }
    } else {
        last_word(h.drop_last(), token, device, name)
    }
}

/// One more room adds its devices, unless there is a room with its token.
proof fn lemma_one_more_room(rooms: Seq<RoomView>, r: RoomView, token: Seq<char>)
    ensures
        devices_in(rooms.push(r), token) == (if room_of(rooms, token) < rooms.len() {
            devices_in(rooms, token)
        } else if r.token == token {
            r.devices
        } else {
            seq![]
        }),
        room_of(rooms, token) < rooms.len() <==> exists|k: int|
            0 <= k < rooms.len() && (#[trigger] rooms[k]).token == token,
{
    let all = rooms.push(r);
    let tokens = rooms.map_values(|x: RoomView| x.token);
    let more = all.map_values(|x: RoomView| x.token);
    lemma_first_index_facts(tokens, token);
    let i = room_of(rooms, token);
    assert forall|k: int| 0 <= k < rooms.len() implies more[k] == tokens[k] by {}
    if i < rooms.len() {
        lemma_first_index(more, token, i);
        assert(tokens[i] == rooms[i].token);
    } else {
        assert forall|k: int| 0 <= k < rooms.len() implies (#[trigger] rooms[k]).token != token by {
            assert(tokens[k] == rooms[k].token);
        }
        if r.token == token {
            lemma_first_index(more, token, rooms.len() as int);
        } else {
            lemma_first_index(more, token, more.len() as int);
        }
    }
}

/// The rooms but the last are as well kept.
proof fn lemma_rest_is_well_kept(rooms: Seq<RoomView>)
    requires
        well_kept(rooms),
        rooms.len() > 0,
    ensures
        well_kept(rooms.drop_last()),
{
    let rest = rooms.drop_last();
    assert forall|i: int, j: int| 0 <= i < j < rest.len() implies (#[trigger] rest[i]).token != (#[trigger] rest[j]).token by {
        assert(rooms[i].token != rooms[j].token);
    }
    assert forall|i: int| 0 <= i < rest.len() implies room_kept(#[trigger] rest[i]) by {
        assert(room_kept(rooms[i]));
    }
}

/// A room that is left after sweeping was there before.
proof fn lemma_no_new_rooms(rooms: Seq<RoomView>, now: u64, token: Seq<char>)
    requires
        forall|k: int| 0 <= k < rooms.len() ==> (#[trigger] rooms[k]).token != token,
    ensures
        forall|k: int| 0 <= k < swept(rooms, now).len() ==> (#[trigger] swept(rooms, now)[k]).token != token,
    decreases rooms.len(),
{
    if rooms.len() > 0 {
        let rest = rooms.drop_last();
        assert forall|k: int| 0 <= k < rest.len() implies (#[trigger] rest[k]).token != token by {
            assert(rest[k] == rooms[k]);
        }
        lemma_no_new_rooms(rest, now, token);
        assert(rooms[rooms.len() - 1].token != token);
        let all = swept(rooms, now);
        let some = swept(rest, now);
        assert forall|k: int| 0 <= k < all.len() implies (#[trigger] all[k]).token != token by {
            if k < some.len() {
                assert(all[k] == some[k]);
            }
        }
    }
}

/// Sweeping the store sweeps every room.
proof fn lemma_swept_room(rooms: Seq<RoomView>, now: u64, token: Seq<char>)
    requires
        well_kept(rooms),
    ensures
        devices_in(swept(rooms, now), token) == younger(devices_in(rooms, token), now, KEPT),
    decreases rooms.len(),
{
    assert(younger(seq![], now, KEPT) =~= seq![]);
    if rooms.len() == 0 {
        lemma_first_index_facts(rooms.map_values(|x: RoomView| x.token), token);
        assert(swept(rooms, now) =~= rooms);
    } else {
        let rest = rooms.drop_last();
        let last = rooms.last();
        let kept = younger(last.devices, now, KEPT);
        let room = RoomView { token: last.token, devices: kept };
        lemma_rest_is_well_kept(rooms);
        lemma_swept_room(rest, now, token);
        assert(rooms =~= rest.push(last));
        lemma_one_more_room(rest, last, token);
        lemma_one_more_room(swept(rest, now), room, token);
        if room_of(rest, token) < rest.len() {
            let k = choose|k: int| 0 <= k < rest.len() && (#[trigger] rest[k]).token == token;
            assert(rooms[k].token != rooms[rooms.len() - 1].token);
        } else {
            lemma_no_new_rooms(rest, now, token);
        }
    }
}

/// A heartbeat that is taken joins its own room and leaves the others as they are after sweeping.
proof fn lemma_rooms_after_beat(rooms: Seq<RoomView>, b: Beat, now: u64, token: Seq<char>)
    requires
        well_kept(rooms),
        after_beat(rooms, b, now).1 is None,
    ensures
        devices_in(after_beat(rooms, b, now).0, token) == (if token == b.token@ {
            joined(devices_in(swept(rooms, now), token), entry_of(b, now))
        } else {
            devices_in(swept(rooms, now), token)
        }),
{
    let here = swept(rooms, now);
    let after = after_beat(rooms, b, now).0;
    let e = entry_of(b, now);
    let i = room_of(here, b.token@);
    let tokens = here.map_values(|x: RoomView| x.token);
    lemma_first_index_facts(tokens, b.token@);
    lemma_first_index_facts(tokens, token);
    if i < here.len() {
        assert(tokens[i] == here[i].token);
        assert(after.map_values(|x: RoomView| x.token) =~= tokens);
    } else {
        lemma_one_more_room(here, RoomView { token: b.token@, devices: seq![e] }, token);
        lemma_first_index_facts(
            Seq::<EntryView>::empty().map_values(|x: EntryView| (x.device, x.name)),
            (e.device, e.name),
        );
        assert(joined(seq![], e) =~= seq![e]);
        if token == b.token@ {
            assert(devices_in(here, token) =~= seq![]);
        }
    }
}

/// After a device has joined, its entry is the new one and all others are as before.
proof fn lemma_joined_members(devices: Seq<EntryView>, e: EntryView, x: EntryView)
    requires
        distinct(devices),
    ensures
        joined(devices, e).contains(x) <==> x == e || (devices.contains(x) && !(x.device == e.device && x.name
            == e.name)),
{
    let keys = devices.map_values(|y: EntryView| (y.device, y.name));
    let k = place_of(devices, e.device, e.name);
    lemma_first_index_facts(keys, (e.device, e.name));
    let all = joined(devices, e);
    assert(all[k] == e);
    if all.contains(x) && x != e {
        let j = choose|j: int| 0 <= j < all.len() && all[j] == x;
        assert(devices[j] == x);
        assert(keys[j] == (x.device, x.name));
        if k < devices.len() {
            assert(keys[k] == (devices[k].device, devices[k].name));
            if j < k {
                assert(!(devices[j].device == devices[k].device && devices[j].name == devices[k].name));
            } else {
                assert(!(devices[k].device == devices[j].device && devices[k].name == devices[j].name));
            }
        }
    }
    if devices.contains(x) && !(x.device == e.device && x.name == e.name) {
        let j = choose|j: int| 0 <= j < devices.len() && devices[j] == x;
        if k < devices.len() {
            assert(keys[k] == (devices[k].device, devices[k].name));
            assert(j != k);
        }
        assert(all[j] == x);
    }
}

/// What is left of some devices.
proof fn lemma_younger_members(devices: Seq<EntryView>, now: u64, limit: u64, x: EntryView)
    ensures
        younger(devices, now, limit).contains(x) <==> devices.contains(x) && age(now, x.seen) <= limit,
{
    only_the_silent_are_dropped(devices, now, limit);
    let y = younger(devices, now, limit);
    if y.contains(x) {
        let k = choose|k: int| 0 <= k < y.len() && y[k] == x;
        assert(age(now, y[k].seen) <= limit && devices.contains(y[k]));
    }
    if devices.contains(x) && age(now, x.seen) <= limit {
        let k = choose|k: int| 0 <= k < devices.len() && devices[k] == x;
        assert(y.contains(devices[k]));
    }
}

/// A store stays well kept through all that happens.
proof fn lemma_always_well_kept(h: Seq<Happening>)
    ensures
        well_kept(after_all(h)),
    decreases h.len(),
{
    if h.len() > 0 {
        lemma_always_well_kept(h.drop_last());
        let before = after_all(h.drop_last());
        match h.last() {
            Happening::Beat(b, now) => {
                the_store_stays_in_bounds(before, b, now);
            },
            Happening::Look(now) => {
                crate::server::lemma_swept(before, now);
            },
        }
    }
}

/// The devices of a well-kept store come once each.
proof fn lemma_room_is_distinct(rooms: Seq<RoomView>, token: Seq<char>)
    requires
        well_kept(rooms),
    ensures
        distinct(devices_in(rooms, token)),
{
    lemma_first_index_facts(rooms.map_values(|x: RoomView| x.token), token);
    let i = room_of(rooms, token);
    if i < rooms.len() {
        assert(room_kept(rooms[i]));
    }
}

/// What a store holds of a token is the last word of each device, and no last word is missing that is young
/// enough to be kept.
proof fn lemma_last_words(h: Seq<Happening>, token: Seq<char>, x: EntryView)
    requires
        in_time(h),
    ensures
        devices_in(after_all(h), token).contains(x) ==> last_word(h, token, x.device, x.name) == Some(x),
        last_word(h, token, x.device, x.name) == Some(x) && age(end_of(h), x.seen) <= KEPT ==> devices_in(
            after_all(h),
            token,
        ).contains(x),
    decreases h.len(),
{
    if h.len() == 0 {
        lemma_first_index_facts(after_all(h).map_values(|r: RoomView| r.token), token);
        assert(devices_in(after_all(h), token) =~= seq![]);
    } else {
        let rest = h.drop_last();
        let before = after_all(rest);
        let now = end_of(h);
        let old_devices = devices_in(before, token);
        let kept = devices_in(swept(before, now), token);
        lemma_last_words(rest, token, x);
        lemma_always_well_kept(rest);
        lemma_swept_room(before, now, token);
        lemma_younger_members(old_devices, now, KEPT, x);
        match h.last() {
            Happening::Beat(b, t) => {
                assert(t == now);
                if after_beat(before, b, now).1 is None {
                    let e = entry_of(b, now);
                    lemma_rooms_after_beat(before, b, now, token);
                    if token == b.token@ {
                        lemma_room_is_distinct(before, token);
                        only_the_silent_are_dropped(old_devices, now, KEPT);
                        lemma_joined_members(kept, e, x);
                    }
                }
            },
            Happening::Look(_) => {},
        }
    }
}

/// What is shown along an order of kind and name, each device once, ascends.
proof fn lemma_in_order(live: Seq<EntryView>, order: Seq<usize>, now: u64, out: Seq<DeviceOut>)
    requires
        distinct(live),
        is_permutation(order, live.len()),
        crate::server::in_order(live, order),
        out.len() == live.len(),
        forall|i: int| 0 <= i < out.len() ==> shows(#[trigger] out[i], live[order[i] as int], now),
    ensures
        forall|i: int, j: int|
            0 <= i < j < out.len() ==> pair_less(
                ((#[trigger] out[i]).device@, out[i].name@),
                ((#[trigger] out[j]).device@, out[j].name@),
            ),
{
    assert forall|i: int, j: int| 0 <= i < j < out.len() implies pair_less(
        ((#[trigger] out[i]).device@, out[i].name@),
        ((#[trigger] out[j]).device@, out[j].name@),
    ) by {
        let (a, b) = (live[order[i] as int], live[order[j] as int]);
        assert(shows(out[i], a, now) && shows(out[j], b, now));
        assert(order[i] < live.len() && order[j] < live.len() && order[i] != order[j]);
        assert(!pair_less((b.device, b.name), (a.device, a.name)));
        lemma_pair_total((a.device, a.name), (b.device, b.name));
        if order[i] < order[j] {
            assert(!(live[order[i] as int].device == live[order[j] as int].device && live[order[i] as int].name
                == live[order[j] as int].name));
        } else {
            assert(!(live[order[j] as int].device == live[order[i] as int].device && live[order[j] as int].name
                == live[order[i] as int].name));
        }
    }
}

/// A list shows exactly the devices of its token that were heard of lately: after any history, a device is
/// listed if and only if its latest heartbeat that was taken is not older than `ALIVE`, with what that
/// heartbeat said and its age; each device comes once, in order of kind and name.
pub proof fn the_list_shows_the_last_word_of_each_device(
    h: Seq<Happening>,
    token: Seq<char>,
    now: u64,
    out: Seq<DeviceOut>,
)
    requires
        in_time(h),
        end_of(h) <= now,
        lists(out, younger(devices_in(swept(after_all(h), now), token), now, ALIVE), now),
    ensures
        forall|i: int|
            0 <= i < out.len() ==> {
                let d = #[trigger] out[i];
                last_word(h, token, d.device@, d.name@) matches Some(e) && shows(d, e, now) && age(now, e.seen)
                    <= ALIVE
            },
        forall|device: Seq<char>, name: Seq<char>|
            (#[trigger] last_word(h, token, device, name) matches Some(e) && age(now, e.seen) <= ALIVE)
                ==> exists|i: int| 0 <= i < out.len() && (#[trigger] out[i]).device@ == device && out[i].name@ == name,
        forall|i: int, j: int|
            0 <= i < j < out.len() ==> pair_less(
                ((#[trigger] out[i]).device@, out[i].name@),
                ((#[trigger] out[j]).device@, out[j].name@),
            ),
{
    let rooms = after_all(h);
    let devices = devices_in(rooms, token);
    let kept = devices_in(swept(rooms, now), token);
    let live = younger(kept, now, ALIVE);
    lemma_always_well_kept(h);
    lemma_swept_room(rooms, now, token);
    lemma_room_is_distinct(rooms, token);
    only_the_silent_are_dropped(devices, now, KEPT);
    only_the_silent_are_dropped(kept, now, ALIVE);
    let order = choose|order: Seq<usize>|
        {
            &&& #[trigger] is_permutation(order, live.len())
            &&& crate::server::in_order(live, order)
            &&& out.len() == live.len()
            &&& forall|i: int| 0 <= i < out.len() ==> shows(#[trigger] out[i], live[order[i] as int], now)
        };
    assert forall|i: int| 0 <= i < out.len() implies {
        let d = #[trigger] out[i];
        last_word(h, token, d.device@, d.name@) matches Some(e) && shows(d, e, now) && age(now, e.seen) <= ALIVE
    } by {
        let e = live[order[i] as int];
        assert(order[i] < live.len());
        assert(shows(out[i], e, now));
        assert(live.contains(e));
        lemma_younger_members(kept, now, ALIVE, e);
        lemma_younger_members(devices, now, KEPT, e);
        lemma_last_words(h, token, e);
    }
    assert forall|device: Seq<char>, name: Seq<char>|
        (#[trigger] last_word(h, token, device, name) matches Some(e) && age(now, e.seen) <= ALIVE) implies exists|
        i: int,
    | 0 <= i < out.len() && (#[trigger] out[i]).device@ == device && out[i].name@ == name by {
        let e = last_word(h, token, device, name)->0;
        lemma_whose_word(h, token, device, name);
        lemma_last_words(h, token, e);
        lemma_younger_members(devices, now, KEPT, e);
        lemma_younger_members(kept, now, ALIVE, e);
        let k = choose|k: int| 0 <= k < live.len() && live[k] == e;
        lemma_every_index_is_listed(order, live.len(), k);
        let i = choose|i: int| 0 <= i < order.len() && #[trigger] order[i] as int == k;
        assert(shows(out[i], live[order[i] as int], now));
    }
    lemma_in_order(live, order, now, out);
}

/// The last word of a device is its own.
proof fn lemma_whose_word(h: Seq<Happening>, token: Seq<char>, device: Seq<char>, name: Seq<char>)
    ensures
        last_word(h, token, device, name) matches Some(e) ==> e.device == device && e.name == name,
    decreases h.len(),
{
    if h.len() > 0 && !ends_in_beat(h, token, device, name) {
        lemma_whose_word(h.drop_last(), token, device, name);
    }
}

// ---- what each operation does to a store ----

/// There is a room of this token with this heartbeat in it.
pub open spec fn holds(rooms: Seq<RoomView>, token: Seq<char>, e: EntryView) -> bool {
    exists|k: int| 0 <= k < rooms.len() && (#[trigger] rooms[k]).token == token && rooms[k].devices.contains(e)
}

/// A heartbeat is no older than so many seconds.
pub open spec fn is_within(e: EntryView, now: u64, seconds: int) -> bool {
    now - e.seen <= seconds * 1_000_000_000
}

/// The devices of a token are those in its room.
proof fn lemma_holds(rooms: Seq<RoomView>, token: Seq<char>, e: EntryView)
    requires
        well_kept(rooms),
    ensures
        holds(rooms, token, e) <==> devices_in(rooms, token).contains(e),
{
    let tokens = rooms.map_values(|x: RoomView| x.token);
    lemma_first_index_facts(tokens, token);
    let i = room_of(rooms, token);
    if i < rooms.len() {
        assert(tokens[i] == rooms[i].token);
    }
    if holds(rooms, token, e) {
        let k = choose|k: int|
            0 <= k < rooms.len() && (#[trigger] rooms[k]).token == token && rooms[k].devices.contains(e);
        assert(tokens[k] == token);
        if i < k {
            assert(rooms[i].token != rooms[k].token);
        }
        assert(i == k);
    }
}

/// What is left after sweeping.
proof fn lemma_holds_swept(rooms: Seq<RoomView>, now: u64, token: Seq<char>, e: EntryView)
    requires
        well_kept(rooms),
    ensures
        holds(swept(rooms, now), token, e) <==> holds(rooms, token, e) && is_within(e, now, 60),
{
    crate::server::lemma_swept(rooms, now);
    lemma_holds(rooms, token, e);
    lemma_holds(swept(rooms, now), token, e);
    lemma_swept_room(rooms, now, token);
    lemma_younger_members(devices_in(rooms, token), now, KEPT, e);
}

/// A new store holds nothing.
pub proof fn a_new_store_is_empty(s: Store, token: Seq<char>, e: EntryView)
    requires
        call_ensures(Store::new, (), s),
    ensures
        well_kept(s@),
        !holds(s@, token, e),
{
}

/// Sweeping drops the heartbeats that are older than a minute and no others.
pub proof fn heartbeats_are_kept_for_a_minute()
    ensures
        forall|s: &mut Store, now: u64, u: (), token: Seq<char>, e: EntryView|
            #![trigger call_ensures(Store::gc, (s, now), u), holds((*final(s))@, token, e)]
            call_ensures(Store::gc, (s, now), u) && well_kept((*s)@) ==> (holds((*final(s))@, token, e) <==> holds(
                (*s)@,
                token,
                e,
            ) && is_within(e, now, 60)),
{
    assert forall|s: &mut Store, now: u64, u: (), token: Seq<char>, e: EntryView|
        #![trigger call_ensures(Store::gc, (s, now), u), holds((*final(s))@, token, e)]
        call_ensures(Store::gc, (s, now), u) && well_kept((*s)@) implies (holds((*final(s))@, token, e) <==> holds(
        (*s)@,
        token,
        e,
    ) && is_within(e, now, 60)) by {
        lemma_holds_swept((*s)@, now, token, e);
    }
}

/// A heartbeat is what is kept of this message: the kind of device, the name without control characters and white space
/// around it, no more than 40 characters of it, the version likewise and no more than 20 characters of
/// it, whether something plays, and the time.
pub open spec fn is_heartbeat_of(e: EntryView, b: Beat, now: u64) -> bool {
    &&& e.device == b.device@
    &&& e.name == clean_spec(b.name@, 40)
    &&& e.app_version == clean_spec(b.app_version@, 20)
    &&& e.state == "playing"@ <==> b.state@ == "playing"@
    &&& e.state == "idle"@ <==> b.state@ != "playing"@
    &&& e.seen == now
}

/// After a heartbeat was taken, the store holds it in the room of its token in place of the one before from the same
/// device, and all other heartbeats that are not older than a minute.
pub proof fn a_heartbeat_takes_the_place_of_the_one_before()
    ensures
        forall|s: &mut Store, b: &Beat, now: u64, r: Result<(), &'static str>, token: Seq<char>, e: EntryView|
            #![trigger call_ensures(Store::beat, (s, b, now), r), holds((*final(s))@, token, e)]
            call_ensures(Store::beat, (s, b, now), r) && well_kept((*s)@) && r is Ok ==> (holds(
                (*final(s))@,
                token,
                e,
            ) <==> {
                ||| token == b.token@ && is_heartbeat_of(e, *b, now)
                ||| holds((*s)@, token, e) && is_within(e, now, 60) && !(token == b.token@ && e.device == b.device@
                    && e.name == clean_spec(b.name@, 40))
            }),
{
    reveal_strlit("playing");
    reveal_strlit("idle");
    assert("playing"@.len() != "idle"@.len());
    assert forall|s: &mut Store, b: &Beat, now: u64, r: Result<(), &'static str>, token: Seq<char>, e: EntryView|
        #![trigger call_ensures(Store::beat, (s, b, now), r), holds((*final(s))@, token, e)]
        call_ensures(Store::beat, (s, b, now), r) && well_kept((*s)@) && r is Ok implies (holds(
        (*final(s))@,
        token,
        e,
    ) <==> {
        ||| token == b.token@ && is_heartbeat_of(e, *b, now)
        ||| holds((*s)@, token, e) && is_within(e, now, 60) && !(token == b.token@ && e.device == b.device@ && e.name
            == clean_spec(b.name@, 40))
    }) by {
        let rooms = (*s)@;
        let here = swept(rooms, now);
        let after = after_beat(rooms, *b, now).0;
        let new = entry_of(*b, now);
        assert(is_heartbeat_of(e, *b, now) <==> e == new);
        the_store_stays_in_bounds(rooms, *b, now);
        lemma_rooms_after_beat(rooms, *b, now, token);
        lemma_holds(after, token, e);
        lemma_holds(here, token, e);
        lemma_holds_swept(rooms, now, token, e);
        lemma_room_is_distinct(here, token);
        lemma_joined_members(devices_in(here, token), new, e);
    }
}

/// Sweeping adds neither rooms nor devices.
proof fn lemma_swept_is_no_more(rooms: Seq<RoomView>, now: u64, token: Seq<char>)
    requires
        well_kept(rooms),
    ensures
        swept(rooms, now).len() <= rooms.len(),
        devices_in(swept(rooms, now), token).len() <= devices_in(rooms, token).len(),
{
    crate::server::lemma_swept(rooms, now);
    lemma_swept_room(rooms, now, token);
    only_the_silent_are_dropped(devices_in(rooms, token), now, KEPT);
}

/// A heartbeat is refused for its token if that is none, then for its kind of device if that is not `pc`, `phone`, `tablet`
/// or `web`; the store then stays as it is. All others are taken while there are fewer than 20,000
/// tokens and fewer than 16 devices of this one, and always from a device that was heard of within a
/// minute.
pub proof fn heartbeats_are_taken_while_there_is_space()
    ensures
        forall|s: &mut Store, b: &Beat, now: u64, r: Result<(), &'static str>| #[trigger]
            call_ensures(Store::beat, (s, b, now), r) && well_kept((*s)@) ==> {
                let token = crate::presence::is_token(b.token@);
                let kind = b.device@ == "pc"@ || b.device@ == "phone"@ || b.device@ == "tablet"@ || b.device@ == "web"@;
                let known = exists|e: EntryView| #[trigger]
                    holds((*s)@, b.token@, e) && is_within(e, now, 60) && e.device == b.device@ && e.name == clean_spec(
                        b.name@,
                        40,
                    );
                &&& !token ==> (r matches Err(e) && e@ == "token"@) && (*final(s))@ == (*s)@
                &&& token && !kind ==> (r matches Err(e) && e@ == "device"@) && (*final(s))@ == (*s)@
                &&& token && kind && known ==> r is Ok
                &&& token && kind && (*s)@.len() < 20_000 && devices_in((*s)@, b.token@).len() < 16 ==> r is Ok
                &&& token && kind ==> (r matches Err(e) ==> {
                    ||| e@ == "busy"@ && (*s)@.len() >= 20_000
                    ||| e@ == "too many devices"@ && devices_in((*s)@, b.token@).len() >= 16
                })
            },
{
    assert forall|s: &mut Store, b: &Beat, now: u64, r: Result<(), &'static str>| #[trigger]
        call_ensures(Store::beat, (s, b, now), r) && well_kept((*s)@) implies {
        let token = crate::presence::is_token(b.token@);
        let kind = b.device@ == "pc"@ || b.device@ == "phone"@ || b.device@ == "tablet"@ || b.device@ == "web"@;
        let known = exists|e: EntryView| #[trigger]
            holds((*s)@, b.token@, e) && is_within(e, now, 60) && e.device == b.device@ && e.name == clean_spec(
                b.name@,
                40,
            );
        &&& !token ==> (r matches Err(e) && e@ == "token"@) && (*final(s))@ == (*s)@
        &&& token && !kind ==> (r matches Err(e) && e@ == "device"@) && (*final(s))@ == (*s)@
        &&& token && kind && known ==> r is Ok
        &&& token && kind && (*s)@.len() < 20_000 && devices_in((*s)@, b.token@).len() < 16 ==> r is Ok
        &&& token && kind ==> (r matches Err(e) ==> {
            ||| e@ == "busy"@ && (*s)@.len() >= 20_000
            ||| e@ == "too many devices"@ && devices_in((*s)@, b.token@).len() >= 16
        })
    } by {
        let rooms = (*s)@;
        let here = swept(rooms, now);
        let devices = devices_in(here, b.token@);
        let new = entry_of(*b, now);
        lemma_swept_is_no_more(rooms, now, b.token@);
        crate::server::lemma_swept(rooms, now);
        if exists|e: EntryView| #[trigger]
            holds(rooms, b.token@, e) && is_within(e, now, 60) && e.device == b.device@ && e.name == clean_spec(
                b.name@,
                40,
            ) {
            let e = choose|e: EntryView| #[trigger]
                holds(rooms, b.token@, e) && is_within(e, now, 60) && e.device == b.device@ && e.name == clean_spec(
                    b.name@,
                    40,
                );
            lemma_holds_swept(rooms, now, b.token@, e);
            lemma_holds(here, b.token@, e);
            let j = choose|j: int| 0 <= j < devices.len() && devices[j] == e;
            let keys = devices.map_values(|x: EntryView| (x.device, x.name));
            lemma_first_index_facts(keys, (new.device, new.name));
            assert(keys[j] == (new.device, new.name));
            assert(room_of(here, b.token@) < here.len());
        }
    }
}

/// The list says of a device what its heartbeat said, and its age in whole seconds.
pub open spec fn tells(d: DeviceOut, e: EntryView, now: u64) -> bool {
    &&& d.device@ == e.device
    &&& d.name@ == e.name
    &&& d.app_version@ == e.app_version
    &&& d.state@ == e.state
    &&& e.seen <= now ==> d.age_secs * 1_000_000_000 <= now - e.seen < (d.age_secs + 1) * 1_000_000_000
    &&& e.seen > now ==> d.age_secs == 0
}

/// Somewhere in a list is this heartbeat.
pub open spec fn is_told(out: Seq<DeviceOut>, e: EntryView, now: u64) -> bool {
    exists|i: int| 0 <= i < out.len() && tells(#[trigger] out[i], e, now)
}

/// What is told comes from a heartbeat of this token that is no older than half a minute.
pub open spec fn is_from(rooms: Seq<RoomView>, token: Seq<char>, d: DeviceOut, now: u64) -> bool {
    exists|e: EntryView| #[trigger] holds(rooms, token, e) && is_within(e, now, 30) && tells(d, e, now)
}

/// A list tells of every device of its token that was heard of within half a minute, once, and of nothing else, by kind and
/// then by name.
pub open spec fn is_list_of(out: Seq<DeviceOut>, rooms: Seq<RoomView>, token: Seq<char>, now: u64) -> bool {
    &&& forall|e: EntryView| #[trigger] holds(rooms, token, e) && is_within(e, now, 30) ==> is_told(out, e, now)
    &&& forall|i: int| 0 <= i < out.len() ==> is_from(rooms, token, #[trigger] out[i], now)
    &&& forall|i: int, j: int|
        0 <= i < j < out.len() ==> pair_less(
            ((#[trigger] out[i]).device@, out[i].name@),
            ((#[trigger] out[j]).device@, out[j].name@),
        )
}

/// What is listed is a list.
proof fn lemma_listed(rooms: Seq<RoomView>, token: Seq<char>, now: u64, out: Seq<DeviceOut>)
    requires
        well_kept(rooms),
        lists(out, younger(devices_in(swept(rooms, now), token), now, ALIVE), now),
    ensures
        is_list_of(out, rooms, token, now),
{
    let devices = devices_in(rooms, token);
    let kept = devices_in(swept(rooms, now), token);
    let live = younger(kept, now, ALIVE);
    lemma_swept_room(rooms, now, token);
    lemma_room_is_distinct(rooms, token);
    only_the_silent_are_dropped(devices, now, KEPT);
    only_the_silent_are_dropped(kept, now, ALIVE);
    let order = choose|order: Seq<usize>|
        {
            &&& #[trigger] is_permutation(order, live.len())
            &&& crate::server::in_order(live, order)
            &&& out.len() == live.len()
            &&& forall|i: int| 0 <= i < out.len() ==> shows(#[trigger] out[i], live[order[i] as int], now)
        };
    assert forall|i: int| 0 <= i < out.len() implies is_from(rooms, token, #[trigger] out[i], now) by {
        let e = live[order[i] as int];
        assert(order[i] < live.len());
        assert(shows(out[i], e, now));
        assert(live.contains(e));
        lemma_younger_members(kept, now, ALIVE, e);
        lemma_younger_members(devices, now, KEPT, e);
        lemma_holds(rooms, token, e);
        assert(tells(out[i], e, now));
    }
    assert forall|e: EntryView| #[trigger] holds(rooms, token, e) && is_within(e, now, 30) implies is_told(
        out,
        e,
        now,
    ) by {
        lemma_holds(rooms, token, e);
        lemma_younger_members(devices, now, KEPT, e);
        lemma_younger_members(kept, now, ALIVE, e);
        let k = choose|k: int| 0 <= k < live.len() && live[k] == e;
        lemma_every_index_is_listed(order, live.len(), k);
        let i = choose|i: int| 0 <= i < order.len() && #[trigger] order[i] as int == k;
        assert(shows(out[i], live[order[i] as int], now));
        assert(tells(out[i], e, now));
    }
    lemma_in_order(live, order, now, out);
}

/// The list of a token tells of every one of its devices that was heard of within half a minute, and of nothing else.
pub proof fn a_list_tells_of_those_heard_of_within_half_a_minute()
    ensures
        forall|s: &mut Store, token: &str, now: u64, out: Vec<DeviceOut>| #[trigger]
            call_ensures(Store::list, (s, token, now), out) && well_kept((*s)@) ==> is_list_of(
                out@,
                (*s)@,
                token@,
                now,
            ),
{
    assert forall|s: &mut Store, token: &str, now: u64, out: Vec<DeviceOut>| #[trigger]
        call_ensures(Store::list, (s, token, now), out) && well_kept((*s)@) implies is_list_of(
        out@,
        (*s)@,
        token@,
        now,
    ) by {
        lemma_listed((*s)@, token@, now, out@);
    }
}

/// There are never more than 20,000 tokens, nor more than 16 devices of one; no token comes twice, none is without devices, and no
/// device comes twice.
pub open spec fn is_within_bounds(rooms: Seq<RoomView>) -> bool {
    &&& rooms.len() <= 20_000
    &&& forall|i: int| 0 <= i < rooms.len() ==> 1 <= (#[trigger] rooms[i]).devices.len() <= 16
    &&& forall|i: int, j: int|
        0 <= i < j < rooms.len() ==> (#[trigger] rooms[i]).token != (#[trigger] rooms[j]).token
    &&& forall|i: int, a: int, b: int|
        0 <= i < rooms.len() && 0 <= a < b < rooms[i].devices.len() ==> !(#[trigger] rooms[i].devices[a].device
            == #[trigger] rooms[i].devices[b].device && rooms[i].devices[a].name == rooms[i].devices[b].name)
}

/// Whatever comes in, a store stays within its bounds.
pub proof fn a_store_stays_within_its_bounds()
    ensures
        forall|s: Store| #[trigger] call_ensures(Store::new, (), s) ==> is_within_bounds(s@) && well_kept(s@),
        forall|s: &mut Store, b: &Beat, now: u64, r: Result<(), &'static str>| #[trigger]
            call_ensures(Store::beat, (s, b, now), r) && well_kept((*s)@) ==> is_within_bounds((*final(s))@) && well_kept(
                (*final(s))@,
            ),
        forall|s: &mut Store, token: &str, now: u64, out: Vec<DeviceOut>| #[trigger]
            call_ensures(Store::list, (s, token, now), out) && well_kept((*s)@) ==> is_within_bounds((*final(s))@)
                && well_kept((*final(s))@),
{
    assert forall|rooms: Seq<RoomView>| #[trigger] well_kept(rooms) implies is_within_bounds(rooms) by {
        assert forall|i: int| 0 <= i < rooms.len() implies 1 <= (#[trigger] rooms[i]).devices.len() <= 16 by {
            assert(room_kept(rooms[i]));
        }
        assert forall|i: int, a: int, b: int|
            0 <= i < rooms.len() && 0 <= a < b < rooms[i].devices.len() implies !(#[trigger] rooms[i].devices[a].device
            == #[trigger] rooms[i].devices[b].device && rooms[i].devices[a].name == rooms[i].devices[b].name) by {
            assert(room_kept(rooms[i]));
            assert(distinct(rooms[i].devices));
        }
    }
}

} // verus!
