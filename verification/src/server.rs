//! The server that tells the devices of one listener about each other: who is there, and the web page.
//!
//! Nothing is kept but heartbeats, and those in memory only. A device is known by its kind and name
//! within the room of its token; what is being listened to is never stored.

use vstd::prelude::*;
use crate::json::{member, push_member};
use crate::presence::{is_token, valid_token};
use crate::text::{
    after_last,
    before_first,
    chars_of,
    decimal,
    find_after_last,
    first_index,
    is_control,
    is_control_spec,
    is_permutation,
    is_trimmed_of,
    joined_by,
    key_view,
    push_decimal,
    query_param,
    query_param_spec,
    sorted_order,
    split,
    split_spec,
    str_eq,
    string_of_range,
    take_before_first,
    texts,
    trim,
    trim_spec,
};

verus! {

/// How long a device counts as there after a heartbeat, in nanoseconds.
pub const ALIVE: u64 = 30_000_000_000;

/// How long a heartbeat is kept, in nanoseconds.
pub const KEPT: u64 = 60_000_000_000;

pub const MAX_TOKENS: usize = 20_000;

pub const MAX_DEVICES_PER_TOKEN: usize = 16;

/// The longest body that is read, in bytes.
pub const MAX_BODY: usize = 2048;

/// A heartbeat.
#[derive(Debug, Clone)]
pub struct Beat {
    pub token: String,
    pub device: String,
    pub name: String,
    pub app_version: String,
    pub state: String,
}

/// A device as the others see it.
#[derive(Debug, Clone, PartialEq)]
pub struct DeviceOut {
    pub device: String,
    pub name: String,
    pub app_version: String,
    pub state: String,
    pub age_secs: u64,
}

/// The last heartbeat of a device. `seen` is a time in nanoseconds.
pub struct Entry {
    pub device: String,
    pub name: String,
    pub app_version: String,
    pub state: String,
    pub seen: u64,
}

/// The devices that share a token.
pub struct Room {
    pub token: String,
    pub devices: Vec<Entry>,
}

/// All heartbeats, by token.
pub struct Store {
    rooms: Vec<Room>,
}

// ---- as mathematical values ----

pub struct EntryView {
    pub device: Seq<char>,
    pub name: Seq<char>,
    pub app_version: Seq<char>,
    pub state: Seq<char>,
    pub seen: u64,
}

pub struct RoomView {
    pub token: Seq<char>,
    pub devices: Seq<EntryView>,
}

impl Entry {
    pub open spec fn view(&self) -> EntryView {
        EntryView {
            device: self.device@,
            name: self.name@,
            app_version: self.app_version@,
            state: self.state@,
            seen: self.seen,
        }
    }
}

/// The heartbeats of a room.
pub open spec fn entries(v: Seq<Entry>) -> Seq<EntryView> {
    v.map_values(|e: Entry| e@)
}

impl Room {
    pub open spec fn view(&self) -> RoomView {
        RoomView { token: self.token@, devices: entries(self.devices@) }
    }
}

/// The rooms of a store.
pub open spec fn rooms(v: Seq<Room>) -> Seq<RoomView> {
    v.map_values(|r: Room| r@)
}

/// The time from `seen` to `now`, and none if `seen` is later.
pub open spec fn age(now: u64, seen: u64) -> int {
    if now >= seen {
        now - seen
    } else {
        0
    }
}

/// The heartbeats that are not older than `limit`.
pub open spec fn younger(devices: Seq<EntryView>, now: u64, limit: u64) -> Seq<EntryView>
    decreases devices.len(),
{
    if devices.len() == 0 {
        seq![]
    } else {
        let rest = younger(devices.drop_last(), now, limit);
        if age(now, devices.last().seen) <= limit {
            rest.push(devices.last())
        } else {
            rest
        }
    }
}

/// The rooms without the heartbeats that are too old to keep, and without those that are empty then.
pub open spec fn swept(rooms: Seq<RoomView>, now: u64) -> Seq<RoomView>
    decreases rooms.len(),
{
    if rooms.len() == 0 {
        seq![]
    } else {
        let rest = swept(rooms.drop_last(), now);
        let kept = younger(rooms.last().devices, now, KEPT);
        if kept.len() > 0 {
            rest.push(RoomView { token: rooms.last().token, devices: kept })
        } else {
            rest
        }
    }
}

/// The place of the room of a token, or the number of rooms.
pub open spec fn room_of(rooms: Seq<RoomView>, token: Seq<char>) -> int {
    first_index(rooms.map_values(|r: RoomView| r.token), token)
}

/// The place of a device in its room, or the number of devices.
pub open spec fn place_of(devices: Seq<EntryView>, device: Seq<char>, name: Seq<char>) -> int {
    first_index(devices.map_values(|e: EntryView| (e.device, e.name)), (device, name))
}

/// The kinds of devices.
pub open spec fn is_device(d: Seq<char>) -> bool {
    d == "pc"@ || d == "phone"@ || d == "tablet"@ || d == "web"@
}

/// A text without control characters, cut off at `max` characters and without white space around it.
pub open spec fn clean_spec(s: Seq<char>, max: int) -> Seq<char> {
    let shown = s.filter(|c: char| !is_control_spec(c));
    trim_spec(
        if shown.len() < max {
            shown
        } else {
            shown.take(max)
        },
    )
}

/// What is kept of a heartbeat.
pub open spec fn entry_of(b: Beat, now: u64) -> EntryView {
    EntryView {
        device: b.device@,
        name: clean_spec(b.name@, 40),
        app_version: clean_spec(b.app_version@, 20),
        state: if b.state@ == "playing"@ {
            "playing"@
        } else {
            "idle"@
        },
        seen: now,
    }
}

/// The devices of a room after a heartbeat: the last one of the same device is replaced.
pub open spec fn joined(devices: Seq<EntryView>, e: EntryView) -> Seq<EntryView> {
    let k = place_of(devices, e.device, e.name);
    if k < devices.len() {
        devices.update(k, e)
    } else {
        devices.push(e)
    }
}

/// The devices in the room of a token.
pub open spec fn devices_in(rooms: Seq<RoomView>, token: Seq<char>) -> Seq<EntryView> {
    let i = room_of(rooms, token);
    if i < rooms.len() {
        rooms[i].devices
    } else {
        seq![]
    }
}

/// What comes of a heartbeat: the rooms afterwards, and why it was refused, if it was.
pub open spec fn after_beat(rooms: Seq<RoomView>, b: Beat, now: u64) -> (Seq<RoomView>, Option<Seq<char>>) {
    let here = swept(rooms, now);
    let i = room_of(here, b.token@);
    let e = entry_of(b, now);
    let devices = devices_in(here, b.token@);
    if !is_token(b.token@) {
        (rooms, Some("token"@))
    } else if !is_device(b.device@) {
        (rooms, Some("device"@))
    } else if i >= here.len() && here.len() >= MAX_TOKENS {
        (here, Some("busy"@))
    } else if place_of(devices, e.device, e.name) >= devices.len() && devices.len() >= MAX_DEVICES_PER_TOKEN {
        (here, Some("too many devices"@))
    } else if i < here.len() {
        (here.update(i, RoomView { token: b.token@, devices: joined(devices, e) }), None)
    } else {
        (here.push(RoomView { token: b.token@, devices: seq![e] }), None)
    }
}

/// A device as the others see it.
pub open spec fn shows(out: DeviceOut, e: EntryView, now: u64) -> bool {
    &&& out.device@ == e.device
    &&& out.name@ == e.name
    &&& out.app_version@ == e.app_version
    &&& out.state@ == e.state
    &&& out.age_secs == age(now, e.seen) / 1_000_000_000
}

// ---- cleaning text ----

/// A text without control characters, cut off at `max` characters and without white space around it.
pub fn clean(s: &str, max: usize) -> (r: String)
    ensures
        r@ == clean_spec(s@, max as int),
{
    let v = chars_of(s);
    let ghost shown = |c: char| !is_control_spec(c);
    let mut out: Vec<char> = Vec::new();
    proof {
        reveal(Seq::filter);
        assert(v@.take(0).filter(shown) =~= seq![]);
    }
    for i in 0..v.len()
        invariant
            v@ == s@,
            shown == (|c: char| !is_control_spec(c)),
            ({
                let all = v@.take(i as int).filter(shown);
                out@ == (if all.len() < max {
                    all
                } else {
                    all.take(max as int)
                })
            }),
    {
        proof {
            reveal(Seq::filter);
            assert(v@.take(i + 1).drop_last() =~= v@.take(i as int));
            assert(v@.take(i + 1).last() == v@[i as int]);
        }
        let ghost all = v@.take(i as int).filter(shown);
        if !is_control(v[i]) {
            if out.len() < max {
                out.push(v[i]);
            }
            proof {
                let more = all.push(v@[i as int]);
                assert(out@ =~= if more.len() < max {
                    more
                } else {
                    more.take(max as int)
                });
            }
        }
    }
    assert(v@.take(v@.len() as int) =~= s@);
    trim(&out)
}

// ---- the store ----

/// The time from `seen` to `now`.
fn age_of(now: u64, seen: u64) -> (a: u64)
    ensures
        a == age(now, seen),
{
    if now >= seen {
        now - seen
    } else {
        0
    }
}

/// A copy of a heartbeat.
fn copied(e: &Entry) -> (c: Entry)
    ensures
        c@ == e@,
{
    Entry {
        device: e.device.clone(),
        name: e.name.clone(),
        app_version: e.app_version.clone(),
        state: e.state.clone(),
        seen: e.seen,
    }
}

/// The heartbeats that are not older than `limit`.
fn keep_younger(devices: &Vec<Entry>, now: u64, limit: u64) -> (out: Vec<Entry>)
    ensures
        entries(out@) == younger(entries(devices@), now, limit),
{
    let ghost all = entries(devices@);
    let mut out: Vec<Entry> = Vec::new();
    assert(entries(out@) =~= younger(all.take(0), now, limit));
    for i in 0..devices.len()
        invariant
            all == entries(devices@),
            entries(out@) == younger(all.take(i as int), now, limit),
    {
        proof {
            assert(all.take(i + 1).drop_last() =~= all.take(i as int));
            assert(all.take(i + 1).last() == devices@[i as int]@);
        }
        let ghost before = entries(out@);
        if age_of(now, devices[i].seen) <= limit {
            out.push(copied(&devices[i]));
            assert(entries(out@) =~= before.push(devices@[i as int]@));
        }
    }
    assert(all.take(devices@.len() as int) =~= all);
    out
}

impl Store {
    /// The rooms.
    pub closed spec fn view(&self) -> Seq<RoomView> {
        rooms(self.rooms@)
    }

    /// A store without heartbeats.
    pub fn new() -> (s: Store)
        ensures
            s@ == Seq::<RoomView>::empty(),
            well_kept(s@),
    {
        let s = Store { rooms: Vec::new() };
        assert(s@ =~= Seq::<RoomView>::empty());
        s
    }

    /// Drops the heartbeats that are too old to keep.
    pub fn gc(&mut self, now: u64)
        ensures
            final(self)@ == swept(old(self)@, now),
            well_kept(old(self)@) ==> well_kept(final(self)@),
    {
        proof {
            if well_kept(self@) {
                lemma_swept(self@, now);
            }
        }
        let ghost all = self@;
        if self.is_swept(now) {
            return;
        }
        let mut out: Vec<Room> = Vec::new();
        assert(rooms(out@) =~= swept(all.take(0), now));
        for i in 0..self.rooms.len()
            invariant
                self@ == all,
                all == rooms(self.rooms@),
                rooms(out@) == swept(all.take(i as int), now),
        {
            proof {
                assert(all.take(i + 1).drop_last() =~= all.take(i as int));
                assert(all.take(i + 1).last() == self.rooms@[i as int]@);
            }
            let ghost before = rooms(out@);
            let devices = keep_younger(&self.rooms[i].devices, now, KEPT);
            if devices.len() > 0 {
                let room = Room { token: self.rooms[i].token.clone(), devices };
                out.push(room);
                assert(rooms(out@) =~= before.push(room@));
            }
        }
        assert(all.take(all.len() as int) =~= all);
        self.rooms = out;
    }

    /// Whether there is nothing to drop.
    fn is_swept(&self, now: u64) -> (r: bool)
        ensures
            r == (swept(self@, now) == self@),
    {
        for i in 0..self.rooms.len()
            invariant
                self@ == rooms(self.rooms@),
                forall|k: int| 0 <= k < i ==> all_young((#[trigger] self@[k]).devices, now),
        {
            let devices = &self.rooms[i].devices;
            assert(self@[i as int].devices == entries(devices@));
            if devices.len() == 0 {
                proof {
                    lemma_kept_whole(self@, now);
                    assert(!all_young(self@[i as int].devices, now));
                }
                return false;
            }
            for j in 0..devices.len()
                invariant
                    i < self@.len(),
                    self@[i as int].devices == entries(devices@),
                    forall|k: int| 0 <= k < j ==> age(now, (#[trigger] entries(devices@)[k]).seen) <= KEPT,
            {
                if age_of(now, devices[j].seen) > KEPT {
                    proof {
                        lemma_kept_whole(self@, now);
                        assert(age(now, entries(devices@)[j as int].seen) > KEPT);
                        assert(!all_young(self@[i as int].devices, now));
                    }
                    return false;
                }
            }
        }
        proof {
            lemma_all_young(self@, now);
        }
        true
    }

    /// The place of the room of a token, or the number of rooms.
    fn find_room(&self, token: &str) -> (i: usize)
        ensures
            i == room_of(self@, token@),
            i <= self.rooms@.len(),
    {
        let ghost tokens = self@.map_values(|r: RoomView| r.token);
        let wanted = token.to_owned();
        let mut i: usize = 0;
        while i < self.rooms.len() && self.rooms[i].token != wanted
            invariant
                wanted@ == token@,
                i <= self.rooms@.len(),
                tokens == self@.map_values(|r: RoomView| r.token),
                self@ == rooms(self.rooms@),
                forall|j: int| 0 <= j < i ==> tokens[j] != token@,
            decreases self.rooms@.len() - i,
        {
            i += 1;
        }
        proof {
            crate::text::lemma_first_index(tokens, token@, i as int);
        }
        i
    }

    /// Takes in a heartbeat. Only valid tokens and known kinds of devices are taken, and no more rooms
    /// and no more devices per room than there is space for.
    pub fn beat(&mut self, b: &Beat, now: u64) -> (r: Result<(), &'static str>)
        ensures
            final(self)@ == after_beat(old(self)@, *b, now).0,
            match r {
                Ok(()) => after_beat(old(self)@, *b, now).1 is None,
                Err(e) => after_beat(old(self)@, *b, now).1 == Some(e@),
            },
            well_kept(old(self)@) ==> well_kept(final(self)@),
    {
        proof {
            if well_kept(self@) {
                the_store_stays_in_bounds(self@, *b, now);
            }
        }
        if !valid_token(b.token.as_str()) {
            return Err("token");
        }
        let d = b.device.as_str();
        if !(str_eq(d, "pc") || str_eq(d, "phone") || str_eq(d, "tablet") || str_eq(d, "web")) {
            return Err("device");
        }
        self.gc(now);
        let ghost here = self@;
        let i = self.find_room(b.token.as_str());
        let n = self.rooms.len();
        if i == n && n >= MAX_TOKENS {
            return Err("busy");
        }
        let state = if str_eq(b.state.as_str(), "playing") {
            "playing".to_owned()
        } else {
            "idle".to_owned()
        };
        let e = Entry {
            device: b.device.clone(),
            name: clean(b.name.as_str(), 40),
            app_version: clean(b.app_version.as_str(), 20),
            state,
            seen: now,
        };
        assert(e@ == entry_of(*b, now));
        if i == n {
            proof {
                assert(place_of(Seq::empty(), e@.device, e@.name) == 0);
            }
            let mut devices: Vec<Entry> = Vec::new();
            let ghost ev = e@;
            devices.push(e);
            assert(entries(devices@) =~= seq![ev]);
            let room = Room { token: b.token.clone(), devices };
            self.rooms.push(room);
            assert(self@ =~= here.push(room@));
            return Ok(());
        }
        let k = find_place(&self.rooms[i].devices, e.device.as_str(), e.name.as_str());
        let m = self.rooms[i].devices.len();
        proof {
            assert(here[i as int] == self.rooms@[i as int]@);
            assert(devices_in(here, b.token@) == entries(self.rooms@[i as int].devices@));
        }
        if k == m && m >= MAX_DEVICES_PER_TOKEN {
            return Err("too many devices");
        }
        let ghost ev = e@;
        let ghost devices = devices_in(here, b.token@);
        let mut all: Vec<Entry> = Vec::new();
        for j in 0..m
            invariant
                i < self.rooms@.len(),
                m == self.rooms@[i as int].devices@.len(),
                entries(all@) == entries(self.rooms@[i as int].devices@).take(j as int),
        {
            let one = copied(&self.rooms[i].devices[j]);
            let ghost before = entries(all@);
            let ghost ov = one@;
            all.push(one);
            proof {
                assert(entries(all@) =~= before.push(ov));
                assert(entries(self.rooms@[i as int].devices@).take(j + 1) =~= before.push(ov));
            }
        }
        assert(entries(all@) =~= devices);
        if k == m {
            all.push(e);
        } else {
            all.set(k, e);
        }
        assert(entries(all@) =~= joined(devices, ev));
        let room = Room { token: b.token.clone(), devices: all };
        let ghost rv = room@;
        self.rooms.set(i, room);
        assert(self@ =~= here.update(i as int, rv));
        Ok(())
    }

    /// The devices of a token that are there, in order of kind and name.
    pub fn list(&mut self, token: &str, now: u64) -> (out: Vec<DeviceOut>)
        ensures
            final(self)@ == swept(old(self)@, now),
            lists(out@, younger(devices_in(swept(old(self)@, now), token@), now, ALIVE), now),
            well_kept(old(self)@) ==> well_kept(final(self)@),
    {
        self.gc(now);
        let i = self.find_room(token);
        let ghost here = self@;
        let live: Vec<Entry> = if i < self.rooms.len() {
            assert(here[i as int] == self.rooms@[i as int]@);
            keep_younger(&self.rooms[i].devices, now, ALIVE)
        } else {
            let none: Vec<Entry> = Vec::new();
            assert(entries(none@) =~= younger(seq![], now, ALIVE));
            none
        };
        let ghost lv = entries(live@);
        let mut keys: Vec<(String, String)> = Vec::new();
        for j in 0..live.len()
            invariant
                keys@.len() == j,
                forall|x: int|
                    0 <= x < j ==> key_view(#[trigger] keys@[x]) == (live@[x].device@, live@[x].name@),
        {
            keys.push((live[j].device.clone(), live[j].name.clone()));
        }
        let order = sorted_order(&keys);
        let mut out: Vec<DeviceOut> = Vec::new();
        for j in 0..order.len()
            invariant
                is_permutation(order@, live@.len()),
                lv == entries(live@),
                out@.len() == j,
                forall|x: int| 0 <= x < j ==> shows(#[trigger] out@[x], lv[order@[x] as int], now),
        {
            let e = &live[order[j]];
            out.push(
                DeviceOut {
                    device: e.device.clone(),
                    name: e.name.clone(),
                    app_version: e.app_version.clone(),
                    state: e.state.clone(),
                    age_secs: age_of(now, e.seen) / 1_000_000_000,
                },
            );
        }
        proof {
            assert(is_permutation(order@, lv.len()));
            assert forall|x: int, y: int| 0 <= x < y < order@.len() implies !crate::text::pair_less(
                (lv[#[trigger] order@[y] as int].device, lv[order@[y] as int].name),
                (lv[#[trigger] order@[x] as int].device, lv[order@[x] as int].name),
            ) by {
                assert(!crate::text::pair_less(
                    key_view(keys@[order@[y] as int]),
                    key_view(keys@[order@[x] as int]),
                ));
            }
            assert(in_order(lv, order@));
        }
        out
    }
}

/// The place of a device in its room, or the number of devices.
fn find_place(devices: &Vec<Entry>, device: &str, name: &str) -> (k: usize)
    ensures
        k == place_of(entries(devices@), device@, name@),
        k <= devices@.len(),
{
    let ghost keys = entries(devices@).map_values(|e: EntryView| (e.device, e.name));
    let mut k: usize = 0;
    while k < devices.len() && !(str_eq(devices[k].device.as_str(), device) && str_eq(
        devices[k].name.as_str(),
        name,
    ))
        invariant
            k <= devices@.len(),
            keys == entries(devices@).map_values(|e: EntryView| (e.device, e.name)),
            forall|j: int| 0 <= j < k ==> keys[j] != (device@, name@),
        decreases devices@.len() - k,
    {
        k += 1;
    }
    proof {
        crate::text::lemma_first_index(keys, (device@, name@), k as int);
    }
    k
}

/// Read along `order`, the devices come in order of kind and name.
pub open spec fn in_order(devices: Seq<EntryView>, order: Seq<usize>) -> bool {
    forall|x: int, y: int|
        0 <= x < y < order.len() ==> !crate::text::pair_less(
            (devices[#[trigger] order[y] as int].device, devices[order[y] as int].name),
            (devices[#[trigger] order[x] as int].device, devices[order[x] as int].name),
        )
}

/// `out` shows every one of the devices once, in order of kind and name.
pub open spec fn lists(out: Seq<DeviceOut>, devices: Seq<EntryView>, now: u64) -> bool {
    exists|order: Seq<usize>|
        {
            &&& #[trigger] is_permutation(order, devices.len())
            &&& in_order(devices, order)
            &&& out.len() == devices.len()
            &&& forall|i: int| 0 <= i < out.len() ==> shows(#[trigger] out[i], devices[order[i] as int], now)
        }
}

/// No two rooms have the same token, no two devices of a room have the same kind and name, no room is
/// empty, and there are no more of either than there is space for.
pub open spec fn well_kept(rooms: Seq<RoomView>) -> bool {
    &&& rooms.len() <= MAX_TOKENS
    &&& forall|i: int, j: int| 0 <= i < j < rooms.len() ==> (#[trigger] rooms[i]).token != (#[trigger] rooms[j]).token
    &&& forall|i: int| 0 <= i < rooms.len() ==> room_kept(#[trigger] rooms[i])
}

/// What `well_kept` says of one room.
pub open spec fn room_kept(r: RoomView) -> bool {
    &&& 0 < r.devices.len() <= MAX_DEVICES_PER_TOKEN
    &&& is_token(r.token)
    &&& distinct(r.devices)
}

/// No two devices have the same kind and name.
pub open spec fn distinct(d: Seq<EntryView>) -> bool {
    forall|i: int, j: int|
        0 <= i < j < d.len() ==> !((#[trigger] d[i]).device == (#[trigger] d[j]).device && d[i].name == d[j].name)
}

impl Default for Store {
    fn default() -> (s: Self)
        ensures
            s@ == Seq::<RoomView>::empty(),
            well_kept(s@),
    {
        Store::new()
    }
}

// ---- what holds of the store ----

/// Of the heartbeats, exactly those that are not too old are left: a device that has fallen silent is not
/// listed, and no other is missing.
pub proof fn only_the_silent_are_dropped(devices: Seq<EntryView>, now: u64, limit: u64)
    ensures
        forall|i: int|
            0 <= i < younger(devices, now, limit).len() ==> {
                let e = #[trigger] younger(devices, now, limit)[i];
                age(now, e.seen) <= limit && devices.contains(e)
            },
        forall|i: int|
            0 <= i < devices.len() && age(now, (#[trigger] devices[i]).seen) <= limit ==> younger(
                devices,
                now,
                limit,
            ).contains(devices[i]),
        younger(devices, now, limit).len() <= devices.len(),
        distinct(devices) ==> distinct(younger(devices, now, limit)),
    decreases devices.len(),
{
    if devices.len() > 0 {
        let rest = devices.drop_last();
        let last = devices.last();
        let y = younger(rest, now, limit);
        let all = younger(devices, now, limit);
        only_the_silent_are_dropped(rest, now, limit);
        assert forall|i: int| 0 <= i < all.len() implies {
            let e = #[trigger] all[i];
            age(now, e.seen) <= limit && devices.contains(e)
        } by {
            if i < y.len() {
                assert(all[i] == y[i]);
                let k = choose|k: int| 0 <= k < rest.len() && rest[k] == y[i];
                assert(devices[k] == y[i]);
            } else {
                assert(devices[devices.len() - 1] == all[i]);
            }
        }
        assert forall|i: int| 0 <= i < devices.len() && age(now, (#[trigger] devices[i]).seen) <= limit implies all.contains(
            devices[i],
        ) by {
            if i < rest.len() {
                assert(rest[i] == devices[i]);
                let k = choose|k: int| 0 <= k < y.len() && y[k] == rest[i];
                assert(all[k] == y[k]);
            } else {
                assert(all[all.len() - 1] == last);
            }
        }
        if distinct(devices) {
            assert(distinct(rest)) by {
                assert forall|i: int, j: int| 0 <= i < j < rest.len() implies !((#[trigger] rest[i]).device == (
                #[trigger] rest[j]).device && rest[i].name == rest[j].name) by {
                    assert(rest[i] == devices[i] && rest[j] == devices[j]);
                }
            }
            assert forall|i: int, j: int| 0 <= i < j < all.len() implies !((#[trigger] all[i]).device == (
            #[trigger] all[j]).device && all[i].name == all[j].name) by {
                if j < y.len() {
                    assert(all[i] == y[i] && all[j] == y[j]);
                } else {
                    assert(all[i] == y[i] && all[j] == last);
                    let k = choose|k: int| 0 <= k < rest.len() && rest[k] == y[i];
                    assert(devices[k] == y[i] && devices[devices.len() - 1] == last);
                }
            }
        }
    }
}

/// Dropping old heartbeats never hides a device that is there: the list is the same before and after.
pub proof fn sweeping_does_not_change_the_list(devices: Seq<EntryView>, now: u64)
    ensures
        younger(younger(devices, now, KEPT), now, ALIVE) == younger(devices, now, ALIVE),
    decreases devices.len(),
{
    if devices.len() > 0 {
        sweeping_does_not_change_the_list(devices.drop_last(), now);
        let y = younger(devices.drop_last(), now, KEPT);
        assert(y.push(devices.last()).drop_last() =~= y);
    }
}

/// There are heartbeats, and none is too old to keep.
pub open spec fn all_young(devices: Seq<EntryView>, now: u64) -> bool {
    devices.len() > 0 && forall|k: int| 0 <= k < devices.len() ==> age(now, (#[trigger] devices[k]).seen) <= KEPT
}

/// Where nothing is too old, nothing is dropped.
proof fn lemma_all_young(rooms: Seq<RoomView>, now: u64)
    requires
        forall|k: int| 0 <= k < rooms.len() ==> all_young((#[trigger] rooms[k]).devices, now),
    ensures
        swept(rooms, now) == rooms,
    decreases rooms.len(),
{
    if rooms.len() > 0 {
        let rest = rooms.drop_last();
        assert forall|k: int| 0 <= k < rest.len() implies all_young((#[trigger] rest[k]).devices, now) by {
            assert(all_young(rooms[k].devices, now));
        }
        lemma_all_young(rest, now);
        assert(all_young(rooms[rooms.len() - 1].devices, now));
        lemma_young(rooms.last().devices, now);
        assert(swept(rooms, now) =~= rooms);
    } else {
        assert(swept(rooms, now) =~= rooms);
    }
}

/// Sweeping never adds a room, and if it changes nothing then nothing is too old.
proof fn lemma_kept_whole(rooms: Seq<RoomView>, now: u64)
    ensures
        swept(rooms, now).len() <= rooms.len(),
        swept(rooms, now) == rooms ==> forall|k: int|
            0 <= k < rooms.len() ==> all_young((#[trigger] rooms[k]).devices, now),
    decreases rooms.len(),
{
    if rooms.len() > 0 {
        let rest = rooms.drop_last();
        let last = rooms.last();
        let kept = younger(last.devices, now, KEPT);
        lemma_kept_whole(rest, now);
        if swept(rooms, now) == rooms {
            assert(kept.len() > 0);
            assert(swept(rooms, now).drop_last() =~= swept(rest, now));
            assert(swept(rooms, now).last().devices == kept);
            only_the_silent_are_dropped(last.devices, now, KEPT);
            assert(all_young(last.devices, now));
            assert forall|k: int| 0 <= k < rooms.len() implies all_young((#[trigger] rooms[k]).devices, now) by {
                if k < rest.len() {
                    assert(rest[k] == rooms[k]);
                }
            }
        }
    }
}

/// Heartbeats of which none is too old are all kept.
proof fn lemma_young(devices: Seq<EntryView>, now: u64)
    requires
        forall|k: int| 0 <= k < devices.len() ==> age(now, (#[trigger] devices[k]).seen) <= KEPT,
    ensures
        younger(devices, now, KEPT) == devices,
    decreases devices.len(),
{
    if devices.len() > 0 {
        let rest = devices.drop_last();
        assert forall|k: int| 0 <= k < rest.len() implies age(now, (#[trigger] rest[k]).seen) <= KEPT by {
            assert(rest[k] == devices[k]);
        }
        lemma_young(rest, now);
        assert(age(now, devices[devices.len() - 1].seen) <= KEPT);
        assert(younger(devices, now, KEPT) =~= devices);
    } else {
        assert(younger(devices, now, KEPT) =~= devices);
    }
}

/// Every room that is left after sweeping was there before, with the same token.
pub proof fn lemma_swept(rooms: Seq<RoomView>, now: u64)
    requires
        well_kept(rooms),
    ensures
        well_kept(swept(rooms, now)),
        swept(rooms, now).len() <= rooms.len(),
        forall|i: int|
            0 <= i < swept(rooms, now).len() ==> exists|k: int|
                0 <= k < rooms.len() && #[trigger] rooms[k].token == (#[trigger] swept(rooms, now)[i]).token,
    decreases rooms.len(),
{
    if rooms.len() > 0 {
        let rest = rooms.drop_last();
        let last = rooms.last();
        assert(well_kept(rest)) by {
            assert forall|i: int, j: int| 0 <= i < j < rest.len() implies (#[trigger] rest[i]).token != (#[trigger] rest[j]).token by {
                assert(rooms[i].token != rooms[j].token);
            }
            assert forall|i: int| 0 <= i < rest.len() implies room_kept(#[trigger] rest[i]) by {
                assert(room_kept(rooms[i]));
            }
        }
        lemma_swept(rest, now);
        let s = swept(rest, now);
        let all = swept(rooms, now);
        let kept = younger(last.devices, now, KEPT);
        only_the_silent_are_dropped(last.devices, now, KEPT);
        assert(room_kept(rooms[rooms.len() - 1]));
        assert forall|i: int| 0 <= i < all.len() implies exists|k: int|
            0 <= k < rooms.len() && #[trigger] rooms[k].token == (#[trigger] all[i]).token by {
            if i < s.len() {
                assert(all[i] == s[i]);
                let k = choose|k: int| 0 <= k < rest.len() && #[trigger] rest[k].token == s[i].token;
                assert(rooms[k].token == all[i].token);
            } else {
                assert(rooms[rooms.len() - 1].token == all[i].token);
            }
        }
        assert forall|i: int, j: int| 0 <= i < j < all.len() implies (#[trigger] all[i]).token != (#[trigger] all[j]).token by {
            assert(all[i] == s[i]);
            if j < s.len() {
                assert(all[j] == s[j]);
            } else {
                let k = choose|k: int| 0 <= k < rest.len() && #[trigger] rest[k].token == s[i].token;
                assert(rooms[k].token != rooms[rooms.len() - 1].token);
            }
        }
        assert forall|i: int| 0 <= i < all.len() implies room_kept(#[trigger] all[i]) by {
            if i < s.len() {
                assert(all[i] == s[i]);
            }
        }
    }
}

/// A device joins a room without coming twice.
proof fn lemma_joined(devices: Seq<EntryView>, e: EntryView)
    requires
        distinct(devices),
    ensures
        distinct(joined(devices, e)),
        joined(devices, e).contains(e),
        joined(devices, e).len() == (if place_of(devices, e.device, e.name) < devices.len() {
            devices.len()
        } else {
            devices.len() + 1
        }),
{
    let keys = devices.map_values(|x: EntryView| (x.device, x.name));
    let k = place_of(devices, e.device, e.name);
    crate::text::lemma_first_index_facts(keys, (e.device, e.name));
    let all = joined(devices, e);
    if k < devices.len() {
        assert(keys[k] == (e.device, e.name));
        assert(all[k] == e);
        assert forall|i: int, j: int| 0 <= i < j < all.len() implies !((#[trigger] all[i]).device == (#[trigger] all[j]).device
            && all[i].name == all[j].name) by {
            assert(keys[i] == (devices[i].device, devices[i].name));
            assert(!(devices[i].device == devices[j].device && devices[i].name == devices[j].name));
        }
    } else {
        assert(all[devices.len() as int] == e);
        assert forall|i: int, j: int| 0 <= i < j < all.len() implies !((#[trigger] all[i]).device == (#[trigger] all[j]).device
            && all[i].name == all[j].name) by {
            if j < devices.len() {
                assert(all[i] == devices[i] && all[j] == devices[j]);
            } else {
                assert(keys[i] == (devices[i].device, devices[i].name));
                assert(all[i] == devices[i] && all[j] == e);
            }
        }
    }
}

/// Whatever heartbeats come in, the store stays within its bounds and no device comes twice.
pub proof fn the_store_stays_in_bounds(rooms: Seq<RoomView>, b: Beat, now: u64)
    requires
        well_kept(rooms),
    ensures
        well_kept(swept(rooms, now)),
        well_kept(after_beat(rooms, b, now).0),
{
    lemma_swept(rooms, now);
    let here = swept(rooms, now);
    let (after, refused) = after_beat(rooms, b, now);
    if refused is None {
        let e = entry_of(b, now);
        let i = room_of(here, b.token@);
        let devices = devices_in(here, b.token@);
        let tokens = here.map_values(|r: RoomView| r.token);
        crate::text::lemma_first_index_facts(tokens, b.token@);
        if i < here.len() {
            assert(tokens[i] == b.token@);
            assert(room_kept(here[i]));
            lemma_joined(devices, e);
            assert forall|x: int, y: int| 0 <= x < y < after.len() implies (#[trigger] after[x]).token != (#[trigger] after[y]).token by {
                assert(here[x].token != here[y].token);
                assert(tokens[x] == here[x].token && tokens[y] == here[y].token);
            }
            assert forall|x: int| 0 <= x < after.len() implies room_kept(#[trigger] after[x]) by {
                if x != i {
                    assert(after[x] == here[x]);
                }
            }
        } else {
            assert forall|x: int, y: int| 0 <= x < y < after.len() implies (#[trigger] after[x]).token != (#[trigger] after[y]).token by {
                assert(tokens[x] == here[x].token);
                if y < here.len() {
                    assert(here[x].token != here[y].token);
                }
            }
            assert forall|x: int| 0 <= x < after.len() implies room_kept(#[trigger] after[x]) by {
                if x < here.len() {
                    assert(after[x] == here[x]);
                } else {
                    assert(distinct(after[x].devices));
                }
            }
        }
    }
}

/// A heartbeat that is taken shows in the room of its token, once and as it came; the rooms of other
/// tokens do not change by it.
pub proof fn a_heartbeat_shows_in_its_own_room_only(rooms: Seq<RoomView>, b: Beat, now: u64, other: Seq<char>)
    requires
        well_kept(rooms),
        after_beat(rooms, b, now).1 is None,
        other != b.token@,
    ensures
        devices_in(after_beat(rooms, b, now).0, b.token@).contains(entry_of(b, now)),
        distinct(devices_in(after_beat(rooms, b, now).0, b.token@)),
        devices_in(after_beat(rooms, b, now).0, other) == devices_in(swept(rooms, now), other),
{
    the_store_stays_in_bounds(rooms, b, now);
    let here = swept(rooms, now);
    let after = after_beat(rooms, b, now).0;
    let e = entry_of(b, now);
    let i = room_of(here, b.token@);
    let tokens = here.map_values(|r: RoomView| r.token);
    let tokens2 = after.map_values(|r: RoomView| r.token);
    let o = room_of(here, other);
    crate::text::lemma_first_index_facts(tokens, b.token@);
    crate::text::lemma_first_index_facts(tokens, other);
    let devices = devices_in(here, b.token@);
    if i < here.len() {
        assert(room_kept(here[i]));
        lemma_joined(devices, e);
        assert(tokens[i] == b.token@);
        assert(tokens2 =~= tokens);
        assert(after[i].devices.contains(e));
        assert(room_kept(after[i]));
    } else {
        assert(tokens2 =~= tokens.push(b.token@));
        crate::text::lemma_first_index(tokens2, b.token@, here.len() as int);
        assert(after[here.len() as int].devices[0] == e);
        assert(room_kept(after[here.len() as int]));
        assert(room_of(after, other) == if o < here.len() {
            o
        } else {
            tokens2.len() as int
        }) by {
            if o < here.len() {
                assert(forall|j: int| 0 <= j < o ==> tokens2[j] == tokens[j]);
                crate::text::lemma_first_index(tokens2, other, o);
            } else {
                crate::text::lemma_first_index(tokens2, other, tokens2.len() as int);
            }
        }
    }
}

/// A cleaned text has no control characters and no more characters than allowed.
pub proof fn cleaned_text_is_plain_and_short(s: Seq<char>, max: int)
    requires
        max >= 0,
    ensures
        clean_spec(s, max).len() <= max,
        forall|i: int| 0 <= i < clean_spec(s, max).len() ==> !is_control_spec(#[trigger] clean_spec(s, max)[i]),
{
    let keep = |c: char| !is_control_spec(c);
    let shown = s.filter(keep);
    let cut = if shown.len() < max {
        shown
    } else {
        shown.take(max)
    };
    assert forall|i: int| 0 <= i < cut.len() implies !is_control_spec(#[trigger] cut[i]) by {
        assert(cut[i] == shown[i]);
        s.lemma_filter_pred(keep, i);
    }
    lemma_trimmed_start(cut);
    lemma_trimmed_end(crate::text::trim_start_spec(cut));
    let a = crate::text::trim_start_spec(cut);
    assert forall|i: int| 0 <= i < clean_spec(s, max).len() implies !is_control_spec(
        #[trigger] clean_spec(s, max)[i],
    ) by {
        assert(clean_spec(s, max)[i] == a[i]);
        assert(a[i] == cut[i + cut.len() - a.len()]);
    }
}

/// No character of a text is a control character.
pub open spec fn is_plain_text(s: Seq<char>) -> bool {
    forall|i: int| 0 <= i < s.len() ==> !is_control_spec(#[trigger] s[i])
}

/// An entry says what kind of device it is, what it is called, its version and whether it plays, all of it
/// short and plain, and nothing about what it plays.
pub open spec fn is_plain(e: EntryView) -> bool {
    &&& is_device(e.device)
    &&& e.name.len() <= 40 && is_plain_text(e.name)
    &&& e.app_version.len() <= 20 && is_plain_text(e.app_version)
    &&& e.state == "idle"@ || e.state == "playing"@
}

/// All rooms have valid tokens and all entries are plain.
pub open spec fn only_plain(rooms: Seq<RoomView>) -> bool {
    forall|i: int|
        0 <= i < rooms.len() ==> is_token((#[trigger] rooms[i]).token) && forall|k: int|
            0 <= k < rooms[i].devices.len() ==> is_plain(#[trigger] rooms[i].devices[k])
}

/// Sweeping leaves only what was there.
proof fn lemma_swept_is_plain(rooms: Seq<RoomView>, now: u64)
    requires
        only_plain(rooms),
    ensures
        only_plain(swept(rooms, now)),
    decreases rooms.len(),
{
    if rooms.len() > 0 {
        let rest = rooms.drop_last();
        let last = rooms.last();
        assert forall|i: int| 0 <= i < rest.len() implies is_token((#[trigger] rest[i]).token) && forall|k: int|
            0 <= k < rest[i].devices.len() ==> is_plain(#[trigger] rest[i].devices[k]) by {
            assert(rest[i] == rooms[i]);
        }
        lemma_swept_is_plain(rest, now);
        only_the_silent_are_dropped(last.devices, now, KEPT);
        let kept = younger(last.devices, now, KEPT);
        assert(last == rooms[rooms.len() - 1]);
        assert forall|k: int| 0 <= k < kept.len() implies is_plain(#[trigger] kept[k]) by {
            let x = choose|x: int| 0 <= x < last.devices.len() && last.devices[x] == kept[k];
            assert(is_plain(last.devices[x]));
        }
    }
}

/// Whatever heartbeats come in, only plain facts are kept: no free text says what is being played.
pub proof fn only_plain_facts_are_kept(rooms: Seq<RoomView>, b: Beat, now: u64)
    requires
        only_plain(rooms),
    ensures
        only_plain(swept(rooms, now)),
        only_plain(after_beat(rooms, b, now).0),
{
    lemma_swept_is_plain(rooms, now);
    let here = swept(rooms, now);
    let (after, refused) = after_beat(rooms, b, now);
    if refused is None {
        let e = entry_of(b, now);
        cleaned_text_is_plain_and_short(b.name@, 40);
        cleaned_text_is_plain_and_short(b.app_version@, 20);
        assert(is_plain(e));
        let tokens = here.map_values(|r: RoomView| r.token);
        crate::text::lemma_first_index_facts(tokens, b.token@);
        let i = room_of(here, b.token@);
        assert forall|x: int| 0 <= x < after.len() implies is_token((#[trigger] after[x]).token) && forall|k: int|
            0 <= k < after[x].devices.len() ==> is_plain(#[trigger] after[x].devices[k]) by {
            if x != i && x < here.len() {
                assert(after[x] == here[x]);
            } else if i < here.len() {
                let devices = here[i].devices;
                crate::text::lemma_first_index_facts(
                    devices.map_values(|y: EntryView| (y.device, y.name)),
                    (e.device, e.name),
                );
                assert forall|k: int| 0 <= k < after[x].devices.len() implies is_plain(#[trigger] after[x].devices[k]) by {
                    if after[x].devices[k] != e {
                        assert(after[x].devices[k] == devices[k]);
                        assert(is_plain(here[i].devices[k]));
                    }
                }
            } else {
                assert(after[x].devices =~= seq![e]);
            }
        }
    }
}

/// Trimming the start leaves an end.
proof fn lemma_trimmed_start(s: Seq<char>)
    ensures
        crate::text::trim_start_spec(s).len() <= s.len(),
        crate::text::trim_start_spec(s) == s.skip(s.len() - crate::text::trim_start_spec(s).len()),
    decreases s.len(),
{
    if s.len() > 0 && crate::text::is_space_spec(s[0]) {
        lemma_trimmed_start(s.drop_first());
        let t = crate::text::trim_start_spec(s.drop_first());
        assert(s.drop_first().skip(s.len() - 1 - t.len()) =~= s.skip(s.len() - t.len()));
    } else {
        assert(s.skip(0) =~= s);
    }
}

/// Trimming the end leaves a start.
proof fn lemma_trimmed_end(s: Seq<char>)
    ensures
        crate::text::trim_end_spec(s).len() <= s.len(),
        crate::text::trim_end_spec(s) == s.take(crate::text::trim_end_spec(s).len() as int),
    decreases s.len(),
{
    if s.len() > 0 && crate::text::is_space_spec(s.last()) {
        lemma_trimmed_end(s.drop_last());
        let t = crate::text::trim_end_spec(s.drop_last());
        assert(s.drop_last().take(t.len() as int) =~= s.take(t.len() as int));
    } else {
        assert(s.take(s.len() as int) =~= s);
    }
}

// ---- requests ----

/// The media type for a file, by what follows its last dot.
pub open spec fn content_type_spec(path: Seq<char>) -> Seq<char> {
    let ext = after_last(path, '.');
    if ext == "html"@ {
        "text/html; charset=utf-8"@
    } else if ext == "js"@ {
        "text/javascript; charset=utf-8"@
    } else if ext == "css"@ {
        "text/css; charset=utf-8"@
    } else if ext == "json"@ {
        "application/json"@
    } else if ext == "svg"@ {
        "image/svg+xml"@
    } else if ext == "png"@ {
        "image/png"@
    } else {
        "application/octet-stream"@
    }
}

/// The media type for a file, by what follows its last dot.
pub fn content_type(path: &str) -> (t: &'static str)
    ensures
        t@ == content_type_spec(path@),
{
    let v = chars_of(path);
    let k = find_after_last(&v, '.');
    let text = string_of_range(&v, k, v.len());
    let ext = text.as_str();
    assert(ext@ =~= after_last(path@, '.'));
    if str_eq(ext, "html") {
        "text/html; charset=utf-8"
    } else if str_eq(ext, "js") {
        "text/javascript; charset=utf-8"
    } else if str_eq(ext, "css") {
        "text/css; charset=utf-8"
    } else if str_eq(ext, "json") {
        "application/json"
    } else if str_eq(ext, "svg") {
        "image/svg+xml"
    } else if str_eq(ext, "png") {
        "image/png"
    } else {
        "application/octet-stream"
    }
}

/// A path without the slashes at its start.
pub open spec fn without_slashes(s: Seq<char>) -> Seq<char>
    decreases s.len(),
{
    if s.len() > 0 && s[0] == '/' {
        without_slashes(s.drop_first())
    } else {
        s
    }
}

/// A part of a path that stays where it is: not empty, not hidden, and with nothing in it that some
/// platform takes for a separator or a drive.
pub open spec fn is_safe_part(p: Seq<char>) -> bool {
    p.len() > 0 && p[0] != '.' && !p.contains('\\') && !p.contains(':')
}

/// The parts of the path to the file that a URL asks for.
pub open spec fn parts_of(url: Seq<char>) -> Seq<Seq<char>> {
    let rel = without_slashes(before_first(url, '?'));
    split_spec(
        if rel.len() == 0 {
            "index.html"@
        } else {
            rel
        },
        '/',
    )
}

/// Whether a part of a path stays where it is.
fn safe_part(p: &str) -> (r: bool)
    ensures
        r == is_safe_part(p@),
{
    let v = chars_of(p);
    let n = v.len();
    if n == 0 || v[0] == '.' {
        return false;
    }
    for i in 0..n
        invariant
            n == v@.len(),
            v@ == p@,
            forall|j: int| 0 <= j < i ==> p@[j] != '\\' && p@[j] != ':',
    {
        if v[i] == '\\' {
            assert(p@.contains('\\'));
            return false;
        }
        if v[i] == ':' {
            assert(p@.contains(':'));
            return false;
        }
    }
    true
}

/// The path, below the directory of the page, of the file that a URL asks for, or nothing if a part of it
/// might lead elsewhere.
pub fn safe_path(url: &str) -> (r: Option<Vec<String>>)
    ensures
        match r {
            Some(parts) => texts(parts@) == parts_of(url@) && forall|i: int|
                0 <= i < parts@.len() ==> is_safe_part((#[trigger] parts@[i])@),
            None => exists|i: int|
                0 <= i < parts_of(url@).len() && !is_safe_part(#[trigger] parts_of(url@)[i]),
        },
{
    let v = chars_of(url);
    let path = chars_of(take_before_first(&v, '?').as_str());
    let n = path.len();
    let mut from: usize = 0;
    assert(path@.skip(0) =~= path@);
    while from < n && path[from] == '/'
        invariant
            n == path@.len(),
            from <= n,
            without_slashes(path@.skip(from as int)) == without_slashes(path@),
        decreases n - from,
    {
        assert(path@.skip(from as int).drop_first() =~= path@.skip(from + 1));
        from += 1;
    }
    let rel = if from == n {
        chars_of("index.html")
    } else {
        chars_of(string_of_range(&path, from, n).as_str())
    };
    proof {
        assert(from < n ==> rel@ =~= path@.skip(from as int));
        assert(from == n ==> path@.skip(from as int).len() == 0);
    }
    let parts = split(&rel, '/');
    let ghost all = parts_of(url@);
    assert(texts(parts@) == all);
    for i in 0..parts.len()
        invariant
            texts(parts@) == all,
            all == parts_of(url@),
            forall|j: int| 0 <= j < i ==> is_safe_part((#[trigger] parts@[j])@),
    {
        assert(all[i as int] == parts@[i as int]@);
        if !safe_part(parts[i].as_str()) {
            assert(!is_safe_part(parts_of(url@)[i as int]));
            return None;
        }
    }
    Some(parts)
}

/// What lies between separators holds no separator.
proof fn lemma_split_parts(s: Seq<char>, c: char)
    ensures
        forall|i: int| 0 <= i < split_spec(s, c).len() ==> !(#[trigger] split_spec(s, c)[i]).contains(c),
    decreases s.len(),
{
    let k = first_index(s, c);
    crate::text::lemma_first_index_facts(s, c);
    let all = split_spec(s, c);
    if k < s.len() {
        lemma_split_parts(s.skip(k + 1), c);
        assert forall|i: int| 0 <= i < all.len() implies !(#[trigger] all[i]).contains(c) by {
            if i > 0 {
                assert(all[i] == split_spec(s.skip(k + 1), c)[i - 1]);
            } else {
                assert(all[0] =~= s.take(k));
            }
        }
    } else {
        assert(all =~= seq![s]);
        assert(!s.contains(c));
    }
}

/// A file that is served lies below the directory of the page: no part of its path is empty, `.` or `..`,
/// and none holds a slash, a backslash or a colon.
pub proof fn served_files_stay_below_the_root(url: Seq<char>, i: int)
    requires
        forall|k: int| 0 <= k < parts_of(url).len() ==> is_safe_part(#[trigger] parts_of(url)[k]),
        0 <= i < parts_of(url).len(),
    ensures
        ({
            let p = parts_of(url)[i];
            &&& p.len() > 0
            &&& p != seq!['.']
            &&& p != seq!['.', '.']
            &&& !p.contains('/')
            &&& !p.contains('\\')
            &&& !p.contains(':')
        }),
{
    let rel = without_slashes(before_first(url, '?'));
    lemma_split_parts(
        if rel.len() == 0 {
            "index.html"@
        } else {
            rel
        },
        '/',
    );
    assert(is_safe_part(parts_of(url)[i]));
}

#[derive(Debug, Clone, Copy, PartialEq, Eq, Structural)]
pub enum Method {
    Get,
    Head,
    Post,
    Options,
    Other,
}

/// What a request asks for.
pub enum Route {
    /// To take in a heartbeat.
    Beat,
    /// The devices of a token, if the request has a valid one.
    List(Option<String>),
    /// Leave for a page from elsewhere to send heartbeats.
    Preflight,
    /// A file of the page, if it may be had.
    File(Option<Vec<String>>),
    /// Nothing that there is.
    NotAllowed,
}

/// What a request asks for.
pub fn route(method: Method, url: &str) -> (r: Route)
    ensures
        ({
            let presence = before_first(url@, '?') == "/api/presence"@;
            match r {
                Route::Beat => presence && method is Post,
                Route::List(t) => {
                    &&& presence
                    &&& method is Get
                    &&& crate::text::opt_view(t) == (match query_param_spec(url@, "token"@) {
                        Some(t) if is_token(t) => Some(t),
                        _ => None,
                    })
                },
                Route::Preflight => presence && method is Options,
                Route::File(f) => {
                    &&& method is Head || (method is Get && !presence)
                    &&& f is Some <==> (forall|i: int|
                        0 <= i < parts_of(url@).len() ==> is_safe_part(#[trigger] parts_of(url@)[i]))
                    &&& f matches Some(parts) ==> texts(parts@) == parts_of(url@)
                },
                Route::NotAllowed => method is Other || (!presence && (method is Post || method is Options)),
            }
        }),
{
    let v = chars_of(url);
    let path = take_before_first(&v, '?');
    let presence = str_eq(path.as_str(), "/api/presence");
    if presence && method == Method::Post {
        Route::Beat
    } else if presence && method == Method::Get {
        match query_param(url, "token") {
            Some(t) => if valid_token(t.as_str()) {
                Route::List(Some(t))
            } else {
                Route::List(None)
            },
            None => Route::List(None),
        }
    } else if presence && method == Method::Options {
        Route::Preflight
    } else if method == Method::Get || method == Method::Head {
        let f = safe_path(url);
        proof {
            if f is Some {
                assert forall|i: int| 0 <= i < parts_of(url@).len() implies is_safe_part(
                    #[trigger] parts_of(url@)[i],
                ) by {
                    assert(parts_of(url@)[i] == f->0@[i]@);
                }
            }
        }
        Route::File(f)
    } else {
        Route::NotAllowed
    }
}

/// A reply with a short body.
pub struct Reply {
    pub status: u16,
    pub headers: Vec<(&'static str, &'static str)>,
    pub body: String,
}

/// The names and values of headers.
pub open spec fn header_texts(headers: Seq<(&'static str, &'static str)>) -> Seq<(Seq<char>, Seq<char>)> {
    headers.map_values(|h: (&'static str, &'static str)| (h.0@, h.1@))
}

/// The headers of JSON: not to be cached, and open to pages from elsewhere.
pub open spec fn json_headers() -> Seq<(Seq<char>, Seq<char>)> {
    seq![
        ("Content-Type"@, "application/json"@),
        ("Cache-Control"@, "no-store"@),
        ("Access-Control-Allow-Origin"@, "*"@),
    ]
}

/// The headers that tell a page from elsewhere what it may send.
pub open spec fn preflight_headers() -> Seq<(Seq<char>, Seq<char>)> {
    seq![
        ("Access-Control-Allow-Origin"@, "*"@),
        ("Access-Control-Allow-Methods"@, "GET, POST, OPTIONS"@),
        ("Access-Control-Allow-Headers"@, "Content-Type"@),
    ]
}

/// The reply is this JSON.
pub open spec fn is_json(r: Reply, status: int, body: Seq<char>) -> bool {
    r.status == status && r.body@ == body && header_texts(r.headers@) == json_headers()
}

/// A reply in JSON.
fn json_reply(status: u16, body: String) -> (r: Reply)
    ensures
        is_json(r, status as int, body@),
{
    let mut headers: Vec<(&'static str, &'static str)> = Vec::new();
    headers.push(("Content-Type", "application/json"));
    headers.push(("Cache-Control", "no-store"));
    headers.push(("Access-Control-Allow-Origin", "*"));
    assert(header_texts(headers@) =~= json_headers());
    Reply { status, headers, body }
}

/// The body of a refusal.
pub open spec fn error_body_spec(e: Seq<char>) -> Seq<char> {
    "{\"ok\":false,\"error\":\""@ + e + "\"}"@
}

/// A refusal.
pub fn refusal(status: u16, e: &str) -> (r: Reply)
    ensures
        is_json(r, status as int, error_body_spec(e@)),
{
    let mut body = "{\"ok\":false,\"error\":\"".to_owned();
    body.append(e);
    body.append("\"}");
    json_reply(status, body)
}

/// A device in the reply to a request for a list.
pub open spec fn device_text(d: DeviceOut) -> Seq<char> {
    "{\"age_secs\":"@ + decimal(d.age_secs as nat) + ","@ + member("app_version"@, d.app_version@) + ","@ + member(
        "device"@,
        d.device@,
    ) + ","@ + member("name"@, d.name@) + ","@ + member("state"@, d.state@) + "}"@
}

/// Devices separated by commas.
pub open spec fn devices_text(v: Seq<DeviceOut>) -> Seq<char>
    decreases v.len(),
{
    if v.len() == 0 {
        seq![]
    } else if v.len() == 1 {
        device_text(v[0])
    } else {
        devices_text(v.drop_last()) + ","@ + device_text(v.last())
    }
}

/// Appends a device.
fn push_device(s: &mut String, d: &DeviceOut)
    ensures
        final(s)@ == old(s)@ + device_text(*d),
{
    s.append("{\"age_secs\":");
    push_decimal(s, d.age_secs);
    s.append(",");
    push_member(s, "app_version", d.app_version.as_str());
    s.append(",");
    push_member(s, "device", d.device.as_str());
    s.append(",");
    push_member(s, "name", d.name.as_str());
    s.append(",");
    push_member(s, "state", d.state.as_str());
    s.append("}");
    assert(s@ =~= old(s)@ + device_text(*d));
}

/// The body of the reply to a request for a list.
pub open spec fn list_text(devices: Seq<DeviceOut>) -> Seq<char> {
    "{\"devices\":["@ + devices_text(devices) + "],\"ok\":true}"@
}

/// The body of the reply to a request for a list.
pub fn list_body(devices: &Vec<DeviceOut>) -> (s: String)
    ensures
        s@ == list_text(devices@),
{
    let mut s = "{\"devices\":[".to_owned();
    let ghost head = s@;
    assert(s@ =~= head + devices_text(devices@.take(0)));
    for i in 0..devices.len()
        invariant
            s@ == head + devices_text(devices@.take(i as int)),
    {
        let ghost before = devices_text(devices@.take(i as int));
        if i > 0 {
            s.append(",");
        }
        push_device(&mut s, &devices[i]);
        proof {
            let d = devices@[i as int];
            let all = devices@.take(i + 1);
            assert(all.drop_last() =~= devices@.take(i as int));
            assert(all.last() == d);
            if i == 0 {
                assert(all[0] == d);
                assert(before =~= seq![]);
                assert(s@ =~= head + device_text(d));
            } else {
                assert(s@ =~= head + (before + ","@ + device_text(d)));
            }
        }
    }
    assert(devices@.take(devices@.len() as int) =~= devices@);
    s.append("],\"ok\":true}");
    s
}

/// What became of the body of a heartbeat.
pub enum Received {
    /// It was longer than it may be.
    TooLarge,
    /// It was no heartbeat.
    Malformed,
    /// The store took it in or refused it.
    Answered(Result<(), &'static str>),
}

/// The reply to a heartbeat.
pub open spec fn answers_beat(r: Received, reply: Reply) -> bool {
    match r {
        Received::TooLarge => is_json(reply, 413, error_body_spec("too large"@)),
        Received::Malformed => is_json(reply, 400, error_body_spec("json"@)),
        Received::Answered(Ok(())) => is_json(reply, 200, "{\"ok\":true}"@),
        Received::Answered(Err(e)) => is_json(reply, 400, error_body_spec(e@)),
    }
}

/// The reply to a heartbeat.
pub fn beat_reply(r: Received) -> (reply: Reply)
    ensures
        answers_beat(r, reply),
{
    match r {
        Received::TooLarge => refusal(413, "too large"),
        Received::Malformed => refusal(400, "json"),
        Received::Answered(Ok(())) => json_reply(200, "{\"ok\":true}".to_owned()),
        Received::Answered(Err(e)) => refusal(400, e),
    }
}

/// Whether a body of this many bytes is longer than it may be.
pub fn too_large(len: usize) -> (r: bool)
    ensures
        r == (len > MAX_BODY),
{
    len > MAX_BODY
}

/// What became of a request, other than a file that is there.
pub enum Outcome {
    Beat(Received),
    /// The devices of a token.
    Listed(Vec<DeviceOut>),
    /// There was no valid token.
    NoToken,
    Preflight,
    /// There is no such file, or it may not be had.
    NoFile,
    NotAllowed,
}

/// The reply to a request.
pub fn reply_for(o: Outcome) -> (r: Reply)
    ensures
        match o {
            Outcome::Beat(b) => answers_beat(b, r),
            Outcome::Listed(d) => is_json(r, 200, list_text(d@)),
            Outcome::NoToken => is_json(r, 400, error_body_spec("token"@)),
            Outcome::Preflight => r.status == 204 && r.body@.len() == 0 && header_texts(r.headers@)
                == preflight_headers(),
            Outcome::NoFile => is_json(r, 404, error_body_spec("not found"@)),
            Outcome::NotAllowed => is_json(r, 405, error_body_spec("method"@)),
        },
{
    match o {
        Outcome::Beat(b) => beat_reply(b),
        Outcome::Listed(d) => json_reply(200, list_body(&d)),
        Outcome::NoToken => refusal(400, "token"),
        Outcome::Preflight => {
            let mut headers: Vec<(&'static str, &'static str)> = Vec::new();
            headers.push(("Access-Control-Allow-Origin", "*"));
            headers.push(("Access-Control-Allow-Methods", "GET, POST, OPTIONS"));
            headers.push(("Access-Control-Allow-Headers", "Content-Type"));
            assert(header_texts(headers@) =~= preflight_headers());
            Reply { status: 204, headers, body: String::new() }
        },
        Outcome::NoFile => refusal(404, "not found"),
        Outcome::NotAllowed => refusal(405, "method"),
    }
}

/// A reply with the content of a file.
pub struct FileReply {
    pub status: u16,
    pub content_type: &'static str,
    pub content: Vec<u8>,
}

/// The reply to a request for a file: its content, if it could be read from this path, and a refusal if not.
pub fn file_reply(path: &str, content: Option<Vec<u8>>) -> (r: Result<FileReply, Reply>)
    ensures
        match content {
            Some(c) => r matches Ok(f) && f.status == 200 && f.content_type@ == content_type_spec(path@)
                && f.content == c,
            None => r matches Err(e) && is_json(e, 404, error_body_spec("not found"@)),
        },
{
    match content {
        Some(c) => Ok(FileReply { status: 200, content_type: content_type(path), content: c }),
        None => Err(reply_for(Outcome::NoFile)),
    }
}

impl Store {
    /// Answers a request that brought a body of `len` bytes. `parsed` is the heartbeat in it, if it is one.
    pub fn answer_beat(&mut self, len: usize, parsed: &Option<Beat>, now: u64) -> (r: Reply)
        ensures
            len > MAX_BODY ==> final(self)@ == old(self)@ && is_json(r, 413, error_body_spec("too large"@)),
            len <= MAX_BODY && parsed is None ==> final(self)@ == old(self)@ && is_json(
                r,
                400,
                error_body_spec("json"@),
            ),
            len <= MAX_BODY ==> (parsed matches Some(b) ==> {
                &&& final(self)@ == after_beat(old(self)@, *b, now).0
                &&& match after_beat(old(self)@, *b, now).1 {
                    None => is_json(r, 200, "{\"ok\":true}"@),
                    Some(e) => is_json(r, 400, error_body_spec(e)),
                }
            }),
            well_kept(old(self)@) ==> well_kept(final(self)@),
    {
        if too_large(len) {
            return reply_for(Outcome::Beat(Received::TooLarge));
        }
        match parsed {
            Some(b) => {
                let taken = self.beat(b, now);
                reply_for(Outcome::Beat(Received::Answered(taken)))
            },
            None => reply_for(Outcome::Beat(Received::Malformed)),
        }
    }

    /// Answers a request for the devices of a token. Without a valid one nothing is looked up.
    pub fn answer_list(&mut self, token: &Option<String>, now: u64) -> (r: Reply)
        ensures
            token is None ==> final(self)@ == old(self)@ && is_json(r, 400, error_body_spec("token"@)),
            token matches Some(t) ==> {
                &&& final(self)@ == swept(old(self)@, now)
                &&& exists|out: Seq<DeviceOut>| #[trigger]
                    lists(out, younger(devices_in(swept(old(self)@, now), t@), now, ALIVE), now) && is_json(
                        r,
                        200,
                        list_text(out),
                    )
            },
            well_kept(old(self)@) ==> well_kept(final(self)@),
    {
        match token {
            Some(t) => {
                let out = self.list(t.as_str(), now);
                reply_for(Outcome::Listed(out))
            },
            None => reply_for(Outcome::NoToken),
        }
    }
}

// ---- what holds of requests ----

/// A text is cleaned of its control characters, cut off behind the first `max` of the others, and then stripped of the white
/// space around it.
pub proof fn cleaning_takes_out_nothing_else(s: &str, max: usize, r: String, cut: Seq<char>)
    requires
        call_ensures(clean, (s, max), r),
        ({
            let shown = s@.filter(|c: char| !((c as u32) <= 31 || 127 <= (c as u32) <= 159));
            &&& cut.len() == max || (cut.len() < max && cut.len() == shown.len())
            &&& cut.len() <= shown.len()
            &&& forall|i: int| 0 <= i < cut.len() ==> #[trigger] cut[i] == shown[i]
        }),
    ensures
        is_trimmed_of(r@, cut),
{
    let a = |c: char| !((c as u32) <= 31 || 127 <= (c as u32) <= 159);
    let b = |c: char| !is_control_spec(c);
    assert(a =~= b);
    let shown = s@.filter(b);
    assert(cut =~= if shown.len() < max {
        shown
    } else {
        shown.take(max as int)
    });
    crate::text::lemma_trimmed(cut);
}

/// A path ends in a dot and this extension, or is nothing but the extension.
pub open spec fn has_ending(path: Seq<char>, ext: Seq<char>) -> bool {
    path == ext || exists|stem: Seq<char>| path == #[trigger] (stem + seq!['.'] + ext)
}

/// What follows the last dot is an extension exactly if the path ends in it.
proof fn lemma_ending(path: Seq<char>, ext: Seq<char>)
    requires
        !ext.contains('.'),
    ensures
        has_ending(path, ext) <==> after_last(path, '.') == ext,
{
    assert forall|i: int| 0 <= i < ext.len() implies ext[i] != '.' by {
        assert(ext.contains(ext[i]));
    }
    if path == ext {
        crate::text::lemma_after_last_index(path, '.', 0);
        assert(path.skip(0) =~= path);
    } else if exists|stem: Seq<char>| path == #[trigger] (stem + seq!['.'] + ext) {
        let stem = choose|stem: Seq<char>| path == #[trigger] (stem + seq!['.'] + ext);
        let k = stem.len() + 1;
        assert forall|i: int| k <= i < path.len() implies path[i] != '.' by {
            assert(path[i] == ext[i - k]);
        }
        crate::text::lemma_after_last_index(path, '.', k as int);
        assert(path.skip(k as int) =~= ext);
    }
    if after_last(path, '.') == ext {
        lemma_cut_behind_a_dot(path);
        let k = crate::text::after_last_index(path, '.');
        if k == 0 {
            assert(path.skip(0) =~= path);
        } else {
            assert(path =~= path.take(k - 1) + seq!['.'] + ext);
        }
    }
}

/// The cut before an extension lies behind a dot or at the start.
proof fn lemma_cut_behind_a_dot(s: Seq<char>)
    ensures
        ({
            let k = crate::text::after_last_index(s, '.');
            0 <= k <= s.len() && (k == 0 || s[k - 1] == '.')
        }),
    decreases s.len(),
{
    if s.len() > 0 && s.last() != '.' {
        lemma_cut_behind_a_dot(s.drop_last());
    }
}

/// Each extension has its media type: pages, scripts and styles are text in UTF-8, and whatever is not known is just bytes.
pub proof fn each_extension_has_its_media_type(path: &str, t: &'static str)
    requires
        call_ensures(content_type, (path,), t),
    ensures
        has_ending(path@, "html"@) ==> t@ == "text/html; charset=utf-8"@,
        has_ending(path@, "js"@) ==> t@ == "text/javascript; charset=utf-8"@,
        has_ending(path@, "css"@) ==> t@ == "text/css; charset=utf-8"@,
        has_ending(path@, "json"@) ==> t@ == "application/json"@,
        has_ending(path@, "svg"@) ==> t@ == "image/svg+xml"@,
        has_ending(path@, "png"@) ==> t@ == "image/png"@,
        !has_ending(path@, "html"@) && !has_ending(path@, "js"@) && !has_ending(path@, "css"@) && !has_ending(
            path@,
            "json"@,
        ) && !has_ending(path@, "svg"@) && !has_ending(path@, "png"@) ==> t@ == "application/octet-stream"@,
{
    reveal_strlit("html");
    reveal_strlit("js");
    reveal_strlit("css");
    reveal_strlit("json");
    reveal_strlit("svg");
    reveal_strlit("png");
    lemma_ending(path@, "html"@);
    lemma_ending(path@, "js"@);
    lemma_ending(path@, "css"@);
    lemma_ending(path@, "json"@);
    lemma_ending(path@, "svg"@);
    lemma_ending(path@, "png"@);
    assert("html"@[0] == 'h' && "json"@[0] == 'j' && "css"@[0] == 'c' && "svg"@[0] == 's' && "png"@[0] == 'p');
    assert("js"@.len() == 2 && "html"@.len() == 4 && "json"@.len() == 4 && "css"@.len() == 3 && "svg"@.len() == 3
        && "png"@.len() == 3);
}

/// No part of a path is empty or begins with a dot, and none holds a backslash or a colon.
pub open spec fn stays_below(parts: Seq<Seq<char>>) -> bool {
    forall|i: int|
        0 <= i < parts.len() ==> (#[trigger] parts[i]).len() > 0 && parts[i][0] != '.' && !parts[i].contains('\\')
            && !parts[i].contains(':')
}

/// Slashes at the start of a path make no difference.
proof fn lemma_slashes(n: nat, rel: Seq<char>)
    requires
        rel.len() == 0 || rel[0] != '/',
    ensures
        without_slashes(Seq::new(n, |i: int| '/') + rel) == rel,
    decreases n,
{
    let s = Seq::new(n, |i: int| '/') + rel;
    if n == 0 {
        assert(s =~= rel);
    } else {
        assert(s.drop_first() =~= Seq::new((n - 1) as nat, |i: int| '/') + rel);
        lemma_slashes((n - 1) as nat, rel);
    }
}

/// A URL asks for the file at its path, whatever slashes are in front and whatever follows a question mark, and for
/// `index.html` if there is no more to it. It is handed out, part by part, exactly if every part stays below
/// where it is.
pub proof fn a_url_asks_for_the_file_at_its_path(
    url: &str,
    r: Option<Vec<String>>,
    slashes: nat,
    parts: Seq<Seq<char>>,
    query: Option<Seq<char>>,
)
    requires
        call_ensures(safe_path, (url,), r),
        parts.len() > 0,
        forall|i: int| 0 <= i < parts.len() ==> !(#[trigger] parts[i]).contains('/') && !parts[i].contains('?'),
        parts.len() > 1 ==> parts[0].len() > 0,
        url@ == Seq::new(slashes, |i: int| '/') + joined_by(parts, '/') + (match query {
            Some(q) => seq!['?'] + q,
            None => seq![],
        }),
    ensures
        ({
            let wanted = if joined_by(parts, '/').len() == 0 {
                seq!["index.html"@]
            } else {
                parts
            };
            &&& r is Some <==> stays_below(wanted)
            &&& r matches Some(f) ==> texts(f@) == wanted
        }),
{
    let rel = joined_by(parts, '/');
    let head = Seq::new(slashes, |i: int| '/') + rel;
    let wanted = if rel.len() == 0 {
        seq!["index.html"@]
    } else {
        parts
    };
    lemma_none_in_joined(parts, '/', '?');
    assert forall|i: int| 0 <= i < head.len() implies head[i] != '?' by {
        if i >= slashes {
            assert(head[i] == rel[i - slashes]);
            assert(rel.contains(rel[i - slashes]));
        }
    }
    assert forall|i: int| 0 <= i < head.len() implies url@[i] == head[i] by {}
    crate::text::lemma_first_index(url@, '?', head.len() as int);
    assert(before_first(url@, '?') =~= head);
    assert(rel.len() == 0 || rel[0] != '/') by {
        if rel.len() > 0 {
            assert(parts[0].len() > 0);
            assert(rel[0] == parts[0][0]);
            assert(parts[0].contains(parts[0][0]));
        }
    }
    lemma_slashes(slashes, rel);
    if rel.len() == 0 {
        reveal_strlit("index.html");
        assert forall|i: int| 0 <= i < "index.html"@.len() implies "index.html"@[i] != '/' by {}
        crate::text::lemma_first_index("index.html"@, '/', "index.html"@.len() as int);
        assert(parts_of(url@) =~= wanted);
    } else {
        crate::text::lemma_joined_splits(parts, '/');
    }
    assert(parts_of(url@) == wanted);
    assert(stays_below(wanted) <==> forall|i: int| 0 <= i < wanted.len() ==> is_safe_part(#[trigger] wanted[i]));
    if r is Some {
        assert forall|i: int| 0 <= i < wanted.len() implies is_safe_part(#[trigger] wanted[i]) by {
            assert(texts(r->0@)[i] == r->0@[i]@);
        }
    }
}

/// What is joined of parts without some character holds it only if it is what joins them.
proof fn lemma_none_in_joined(parts: Seq<Seq<char>>, c: char, d: char)
    requires
        c != d,
        forall|i: int| 0 <= i < parts.len() ==> !(#[trigger] parts[i]).contains(d),
    ensures
        !joined_by(parts, c).contains(d),
    decreases parts.len(),
{
    if parts.len() > 1 {
        let rest = parts.drop_first();
        assert forall|i: int| 0 <= i < rest.len() implies !(#[trigger] rest[i]).contains(d) by {
            assert(rest[i] == parts[i + 1]);
        }
        lemma_none_in_joined(rest, c, d);
        let s = joined_by(parts, c);
        let first = parts[0];
        assert forall|i: int| 0 <= i < s.len() implies s[i] != d by {
            if i < first.len() {
                assert(s[i] == first[i]);
                assert(first.contains(first[i]));
            } else if i > first.len() {
                assert(s[i] == joined_by(rest, c)[i - first.len() - 1]);
                assert(joined_by(rest, c).contains(s[i]));
            }
        }
    }
}

/// A URL is that of the devices.
pub open spec fn is_presence(url: Seq<char>) -> bool {
    url == "/api/presence"@ || exists|q: Seq<char>| url == #[trigger] ("/api/presence?"@ + q)
}

/// The URL of the devices takes heartbeats by POST and gives lists by GET, and OPTIONS asks for leave; all other URLs are
/// files, to be had by GET and HEAD; everything else is not allowed.
pub proof fn each_request_has_its_route(method: Method, url: &str, r: Route)
    requires
        call_ensures(route, (method, url), r),
    ensures
        r is Beat <==> method is Post && is_presence(url@),
        r is List <==> method is Get && is_presence(url@),
        r is Preflight <==> method is Options && is_presence(url@),
        r is File <==> method is Head || (method is Get && !is_presence(url@)),
        r is NotAllowed <==> method is Other || (!is_presence(url@) && (method is Post || method is Options)),
{
    lemma_presence(url@);
}

/// The path of a URL is that of the devices.
proof fn lemma_presence(url: Seq<char>)
    ensures
        is_presence(url) <==> before_first(url, '?') == "/api/presence"@,
{
    reveal_strlit("/api/presence");
    reveal_strlit("/api/presence?");
    let p = "/api/presence"@;
    assert("/api/presence?"@ =~= p + seq!['?']);
    assert forall|i: int| 0 <= i < p.len() implies p[i] != '?' by {}
    if url == p {
        crate::text::lemma_first_index(url, '?', p.len() as int);
        assert(url.take(p.len() as int) =~= p);
    } else if exists|q: Seq<char>| url == #[trigger] ("/api/presence?"@ + q) {
        crate::text::lemma_first_index(url, '?', p.len() as int);
        assert(url.take(p.len() as int) =~= p);
    }
    if before_first(url, '?') == p {
        crate::text::lemma_first_index_facts(url, '?');
        let k = first_index(url, '?');
        if k == url.len() {
            assert(url.take(k) =~= url);
        } else {
            assert(url =~= "/api/presence?"@ + url.skip(k + 1));
        }
    }
}

/// A request for a list names its token in the query; one that is none counts as missing.
pub proof fn a_list_is_that_of_the_token_in_the_query(url: &str, t: Option<String>)
    requires
        call_ensures(route, (Method::Get, url), Route::List(t)),
    ensures
        t is Some <==> (query_param_spec(url@, "token"@) matches Some(x) && is_token(x)),
        t matches Some(x) ==> query_param_spec(url@, "token"@) == Some(x@),
{
}

/// A reply is JSON, says so, and is neither to be kept by anyone nor hidden from other pages.
pub open spec fn is_open_json(r: Reply) -> bool {
    &&& r.headers@.len() == 3
    &&& r.headers@[0].0@ == "Content-Type"@ && r.headers@[0].1@ == "application/json"@
    &&& r.headers@[1].0@ == "Cache-Control"@ && r.headers@[1].1@ == "no-store"@
    &&& r.headers@[2].0@ == "Access-Control-Allow-Origin"@ && r.headers@[2].1@ == "*"@
}

/// The headers that are told are the headers.
proof fn lemma_headers(r: Reply)
    ensures
        header_texts(r.headers@) == json_headers() ==> is_open_json(r),
{
    if header_texts(r.headers@) == json_headers() {
        assert(json_headers().len() == 3);
        assert(header_texts(r.headers@).len() == r.headers@.len());
        assert(header_texts(r.headers@)[0] == json_headers()[0]);
        assert(header_texts(r.headers@)[1] == json_headers()[1]);
        assert(header_texts(r.headers@)[2] == json_headers()[2]);
    }
}

/// Each outcome has its status: 200 where it went well, 204 for leave to send, 400 for what is not in order, 404 for a file that
/// is not there, 405 for what is not allowed and 413 for too much. A refusal names its cause.
pub proof fn each_outcome_has_its_status(o: Outcome, r: Reply)
    requires
        call_ensures(reply_for, (o,), r),
    ensures
        !(o is Preflight) ==> is_open_json(r),
        o is Preflight ==> r.status == 204 && r.body@.len() == 0 && r.headers@.len() == 3 && r.headers@[0].0@
            == "Access-Control-Allow-Origin"@ && r.headers@[0].1@ == "*"@ && r.headers@[1].0@
            == "Access-Control-Allow-Methods"@ && r.headers@[1].1@ == "GET, POST, OPTIONS"@ && r.headers@[2].0@
            == "Access-Control-Allow-Headers"@ && r.headers@[2].1@ == "Content-Type"@,
        o is Listed ==> r.status == 200,
        o is NoToken ==> r.status == 400 && r.body@ == "{\"ok\":false,\"error\":\""@ + "token"@ + "\"}"@,
        o is NoFile ==> r.status == 404 && r.body@ == "{\"ok\":false,\"error\":\""@ + "not found"@ + "\"}"@,
        o is NotAllowed ==> r.status == 405 && r.body@ == "{\"ok\":false,\"error\":\""@ + "method"@ + "\"}"@,
        o matches Outcome::Beat(Received::TooLarge) ==> r.status == 413 && r.body@ == "{\"ok\":false,\"error\":\""@
            + "too large"@ + "\"}"@,
        o matches Outcome::Beat(Received::Malformed) ==> r.status == 400 && r.body@ == "{\"ok\":false,\"error\":\""@
            + "json"@ + "\"}"@,
        o matches Outcome::Beat(Received::Answered(Ok(_))) ==> r.status == 200 && r.body@ == "{\"ok\":true}"@,
        o matches Outcome::Beat(Received::Answered(Err(e))) ==> r.status == 400 && r.body@
            == "{\"ok\":false,\"error\":\""@ + e@ + "\"}"@,
{
    lemma_headers(r);
    if o is Preflight {
        assert(preflight_headers().len() == 3);
        assert(header_texts(r.headers@).len() == r.headers@.len());
        assert(header_texts(r.headers@)[0] == preflight_headers()[0]);
        assert(header_texts(r.headers@)[1] == preflight_headers()[1]);
        assert(header_texts(r.headers@)[2] == preflight_headers()[2]);
    }
}

/// A device is an object with its age as a number and all else as text.
pub open spec fn is_device_object(t: Seq<char>, d: DeviceOut) -> bool {
    t == "{\"age_secs\":"@ + decimal(d.age_secs as nat) + ",\"app_version\":"@ + crate::json::quoted(d.app_version@)
        + ",\"device\":"@ + crate::json::quoted(d.device@) + ",\"name\":"@ + crate::json::quoted(d.name@)
        + ",\"state\":"@ + crate::json::quoted(d.state@) + "}"@
}

/// A list is an object with one object for each device, in the same order, and with a comma between them.
pub proof fn a_list_is_an_object_of_all_its_devices(devices: &Vec<DeviceOut>, s: String, objects: Seq<Seq<char>>)
    requires
        call_ensures(list_body, (devices,), s),
        objects.len() == devices@.len(),
        forall|i: int| 0 <= i < objects.len() ==> is_device_object(#[trigger] objects[i], devices@[i]),
    ensures
        s@ == "{\"devices\":["@ + joined_by(objects, ',') + "],\"ok\":true}"@,
{
    lemma_objects(devices@, objects);
}

/// An object as it is put together.
proof fn lemma_object(d: DeviceOut)
    ensures
        is_device_object(device_text(d), d),
{
    reveal_strlit(",");
    reveal_strlit("\":");
    reveal_strlit("app_version");
    reveal_strlit("device");
    reveal_strlit("name");
    reveal_strlit("state");
    reveal_strlit(",\"app_version\":");
    reveal_strlit(",\"device\":");
    reveal_strlit(",\"name\":");
    reveal_strlit(",\"state\":");
    let q = seq!['"'];
    assert(",\"app_version\":"@ =~= ","@ + (q + "app_version"@ + "\":"@));
    assert(",\"device\":"@ =~= ","@ + (q + "device"@ + "\":"@));
    assert(",\"name\":"@ =~= ","@ + (q + "name"@ + "\":"@));
    assert(",\"state\":"@ =~= ","@ + (q + "state"@ + "\":"@));
    assert(device_text(d) =~= "{\"age_secs\":"@ + decimal(d.age_secs as nat) + ",\"app_version\":"@
        + crate::json::quoted(d.app_version@) + ",\"device\":"@ + crate::json::quoted(d.device@) + ",\"name\":"@
        + crate::json::quoted(d.name@) + ",\"state\":"@ + crate::json::quoted(d.state@) + "}"@);
}

/// One more part is joined behind the others.
proof fn lemma_joined_push(parts: Seq<Seq<char>>, c: char, last: Seq<char>)
    requires
        parts.len() > 0,
    ensures
        joined_by(parts.push(last), c) == joined_by(parts, c) + seq![c] + last,
    decreases parts.len(),
{
    let all = parts.push(last);
    assert(all.drop_first() =~= parts.drop_first().push(last));
    if parts.len() == 1 {
        assert(all.drop_first() =~= seq![last]);
        assert(joined_by(seq![last], c) =~= last);
    } else {
        lemma_joined_push(parts.drop_first(), c, last);
    }
    assert(joined_by(all, c) =~= joined_by(parts, c) + seq![c] + last);
}

/// The objects of a list, joined.
proof fn lemma_objects(v: Seq<DeviceOut>, objects: Seq<Seq<char>>)
    requires
        objects.len() == v.len(),
        forall|i: int| 0 <= i < objects.len() ==> is_device_object(#[trigger] objects[i], v[i]),
    ensures
        devices_text(v) == joined_by(objects, ','),
    decreases v.len(),
{
    if v.len() > 0 {
        lemma_object(v.last());
        assert(is_device_object(objects[v.len() - 1], v[v.len() - 1]));
        let some = objects.drop_last();
        assert forall|i: int| 0 <= i < some.len() implies is_device_object(#[trigger] some[i], v.drop_last()[i]) by {
            assert(some[i] == objects[i]);
        }
        lemma_objects(v.drop_last(), some);
        if v.len() > 1 {
            reveal_strlit(",");
            assert(","@ =~= seq![',']);
            lemma_joined_push(some, ',', objects.last());
            assert(some.push(objects.last()) =~= objects);
        }
    }
}

/// A body of up to 2048 bytes is read.
pub proof fn bodies_of_two_kilobytes_are_read(len: usize, r: bool)
    requires
        call_ensures(too_large, (len,), r),
    ensures
        r <==> len >= 2049,
{
}

/// A file that could be read is sent whole with the media type of its path; without one the reply is that there is none.
pub proof fn a_file_is_sent_whole(path: &str, content: Option<Vec<u8>>, r: Result<FileReply, Reply>)
    requires
        call_ensures(file_reply, (path, content), r),
    ensures
        content matches Some(c) ==> (r matches Ok(f) && f.status == 200 && f.content@ == c@ && f.content_type@
            == content_type_spec(path@)),
        content is None ==> (r matches Err(e) && e.status == 404 && is_open_json(e)),
{
    if r is Err {
        lemma_headers(r->Err_0);
    }
}

/// A body that is too long or no heartbeat changes nothing; every other one is answered with 200 exactly if it was taken,
/// and with what is wrong if it was not.
pub proof fn a_heartbeat_is_answered_by_what_became_of_it()
    ensures
        forall|s: &mut Store, len: usize, parsed: &Option<Beat>, now: u64, r: Reply| #[trigger]
            call_ensures(Store::answer_beat, (s, len, parsed, now), r) ==> {
                &&& len > 2048 ==> r.status == 413 && (*final(s))@ == (*s)@
                &&& len <= 2048 && parsed is None ==> r.status == 400 && (*final(s))@ == (*s)@ && r.body@
                    == "{\"ok\":false,\"error\":\""@ + "json"@ + "\"}"@
                &&& r.status == 200 || r.status == 400 || r.status == 413
                &&& r.status == 200 ==> len <= 2048 && parsed is Some && r.body@ == "{\"ok\":true}"@
                &&& len <= 2048 && r.status == 200 ==> (parsed matches Some(b) && is_token(b.token@) && (b.device@
                    == "pc"@ || b.device@ == "phone"@ || b.device@ == "tablet"@ || b.device@ == "web"@))
                &&& len <= 2048 ==> (parsed matches Some(b) ==> {
                    &&& !is_token(b.token@) ==> r.body@ == "{\"ok\":false,\"error\":\""@ + "token"@ + "\"}"@
                    &&& (*s)@.len() == 0 && is_token(b.token@) && (b.device@ == "pc"@ || b.device@ == "phone"@
                        || b.device@ == "tablet"@ || b.device@ == "web"@) ==> r.status == 200
                })
            },
{
    assert forall|s: &mut Store, len: usize, parsed: &Option<Beat>, now: u64, r: Reply| #[trigger]
        call_ensures(Store::answer_beat, (s, len, parsed, now), r) && (*s)@.len() == 0 implies swept((*s)@, now).len()
        == 0 by {}
    assert forall|here: Seq<RoomView>, t: Seq<char>| here.len() == 0 implies (#[trigger] devices_in(here, t)).len()
        == 0 by {
        crate::text::lemma_first_index_facts(here.map_values(|x: RoomView| x.token), t);
    }
}

/// Without a valid token there is no list and nothing changes; with one the reply is a list.
pub proof fn a_list_needs_a_token()
    ensures
        forall|s: &mut Store, token: &Option<String>, now: u64, r: Reply| #[trigger]
            call_ensures(Store::answer_list, (s, token, now), r) ==> {
                &&& token is None ==> r.status == 400 && (*final(s))@ == (*s)@ && r.body@
                    == "{\"ok\":false,\"error\":\""@ + "token"@ + "\"}"@
                &&& token is Some ==> r.status == 200
            },
{
}

} // verus!
