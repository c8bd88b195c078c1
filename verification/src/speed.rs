//! Speed enforcement: cameras report number plates on roads, the server works out
//! average speeds between consecutive sightings and issues tickets to dispatchers.
use vstd::prelude::*;

use vstd::utf8::encode_utf8;

use crate::text::string_from_chars;

verus! {

/// A camera connection and where it stands.
pub struct Camera {
    pub client: u64,
    pub road: u16,
    pub mile: u16,
    pub limit: u16,
}

/// A dispatcher connection and the roads it is responsible for.
pub struct Dispatcher {
    pub client: u64,
    pub roads: Vec<u16>,
}

/// A connection that asked for heartbeats every `interval` deciseconds.
pub struct HeartbeatSub {
    pub client: u64,
    pub interval: u32,
}

/// One sighting of a plate, with the camera's position and the road's limit.
pub struct Observation {
    pub plate: String,
    pub time: u32,
    pub mile: u16,
    pub road: u16,
    pub limit: u16,
}

/// A ticket that was issued for `plate` on `day`.
pub struct Ticket {
    pub plate: String,
    pub day: u32,
}

/// Everything the server remembers.
pub struct SpeedState {
    pub heartbeats: Vec<HeartbeatSub>,
    pub cameras: Vec<Camera>,
    pub dispatchers: Vec<Dispatcher>,
    pub observations: Vec<Observation>,
    pub tickets: Vec<Ticket>,
}

impl Observation {
    /// A copy of this sighting.
    pub fn duplicate(&self) -> (res: Observation)
        ensures
            res == *self,
    {
        Observation {
            plate: self.plate.clone(),
            time: self.time,
            mile: self.mile,
            road: self.road,
            limit: self.limit,
        }
    }
}

/// The sightings of `plate` on `road`, in the order in which they were made.
pub open spec fn readings_of(obs: Seq<Observation>, plate: Seq<char>, road: u16) -> Seq<Observation>
    decreases obs.len(),
{
    if obs.len() == 0 {
        obs
    } else {
        let rest = readings_of(obs.drop_last(), plate, road);
        if obs.last().road == road && obs.last().plate@ == plate {
            rest.push(obs.last())
        } else {
            rest
        }
    }
}

/// Puts `x` after every element of `sorted` whose time is not later than its own.
pub open spec fn insert_by_time(sorted: Seq<Observation>, x: Observation) -> Seq<Observation>
    decreases sorted.len(),
{
    if sorted.len() == 0 {
        seq![x]
    } else if sorted.last().time <= x.time {
        sorted.push(x)
    } else {
        insert_by_time(sorted.drop_last(), x).push(sorted.last())
    }
}

/// `s` ordered by time; sightings with equal times keep their order of arrival.
pub open spec fn sort_by_time(s: Seq<Observation>) -> Seq<Observation>
    decreases s.len(),
{
    if s.len() == 0 {
        s
    } else {
        insert_by_time(sort_by_time(s.drop_last()), s.last())
    }
}

/// Times never decrease along `s`.
pub open spec fn time_sorted(s: Seq<Observation>) -> bool {
    forall|i: int, j: int| 0 <= i <= j < s.len() ==> #[trigger] s[i].time <= #[trigger] s[j].time
}

proof fn lemma_insert_by_time_sorted(sorted: Seq<Observation>, x: Observation)
    requires
        time_sorted(sorted),
    ensures
        time_sorted(insert_by_time(sorted, x)),
        insert_by_time(sorted, x).to_multiset() == sorted.to_multiset().insert(x),
    decreases sorted.len(),
{
    broadcast use vstd::seq_lib::group_to_multiset_ensures;

    if sorted.len() == 0 {
        assert(seq![x] =~= Seq::<Observation>::empty().push(x));
    } else if sorted.last().time <= x.time {
    } else {
        let init = sorted.drop_last();
        lemma_insert_by_time_sorted(init, x);
        let mid = insert_by_time(init, x);
        let r = mid.push(sorted.last());
        assert(init.push(sorted.last()) =~= sorted);
        assert(r.to_multiset() =~= sorted.to_multiset().insert(x));
        assert forall|i: int, j: int| 0 <= i <= j < r.len() implies #[trigger] r[i].time
            <= #[trigger] r[j].time by {
            if j == r.len() - 1 && i < j {
                assert(r[i] == mid[i]);
                assert(mid.to_multiset().contains(mid[i]));
                if mid[i] != x {
                    assert(init.to_multiset().contains(mid[i]));
                    let k = choose|k: int| 0 <= k < init.len() && init[k] == mid[i];
                    assert(sorted[k] == init[k]);
                }
                assert(sorted[sorted.len() - 1] == sorted.last());
            }
        }
    }
}

/// Ordering by time gives a time-ordered arrangement of the same sightings.
pub proof fn lemma_sort_by_time_sorted(s: Seq<Observation>)
    ensures
        time_sorted(sort_by_time(s)),
        sort_by_time(s).to_multiset() == s.to_multiset(),
        sort_by_time(s).len() == s.len(),
    decreases s.len(),
{
    broadcast use vstd::seq_lib::group_to_multiset_ensures;

    if s.len() > 0 {
        lemma_sort_by_time_sorted(s.drop_last());
        lemma_insert_by_time_sorted(sort_by_time(s.drop_last()), s.last());
        assert(s.drop_last().push(s.last()) =~= s);
    }
    assert(sort_by_time(s).to_multiset().len() == sort_by_time(s).len());
    assert(s.to_multiset().len() == s.len());
}

/// Inserts `x` into `v` as `insert_by_time` says.
fn insert_observation(v: &mut Vec<Observation>, x: Observation)
    ensures
        final(v)@ == insert_by_time(old(v)@, x),
{
    let ghost gx = x;
    let mut j: usize = v.len();
    assert(v@.take(j as int) =~= v@);
    assert(v@.skip(j as int) =~= Seq::<Observation>::empty());
    while j > 0 && v[j - 1].time > x.time
        invariant
            j <= v.len(),
            v@ == old(v)@,
            gx == x,
            insert_by_time(v@, x) == insert_by_time(v@.take(j as int), x) + v@.skip(j as int),
            forall|k: int| j <= k < v.len() ==> #[trigger] v@[k].time > x.time,
        decreases j,
    {
        let ghost pre = v@.take(j as int);
        assert(pre.drop_last() =~= v@.take(j - 1));
        assert(pre.last() == v@[j - 1]);
        assert(insert_by_time(pre, x) == insert_by_time(v@.take(j - 1), x).push(v@[j - 1]));
        assert(v@.skip(j - 1) =~= seq![v@[j - 1]] + v@.skip(j as int));
        assert(insert_by_time(v@.take(j - 1), x).push(v@[j - 1]) + v@.skip(j as int)
            =~= insert_by_time(v@.take(j - 1), x) + v@.skip(j - 1));
        j = j - 1;
    }
    proof {
        let pre = v@.take(j as int);
        if j == 0 {
            assert(insert_by_time(pre, x) == seq![x]);
        } else {
            assert(pre.last() == v@[j - 1]);
            assert(insert_by_time(pre, x) == pre.push(x));
        }
        assert(insert_by_time(pre, x) + v@.skip(j as int) =~= v@.insert(j as int, x));
    }
    v.insert(j, x);
}

/// The sightings of `plate` on `road`, ordered by time, ties kept in order of arrival.
pub fn sorted_readings(obs: &Vec<Observation>, plate: &String, road: u16) -> (res: Vec<Observation>)
    ensures
        res@ == sort_by_time(readings_of(obs@, plate@, road)),
{
    let mut res: Vec<Observation> = Vec::new();
    let mut i: usize = 0;
    while i < obs.len()
        invariant
            i <= obs.len(),
            res@ == sort_by_time(readings_of(obs@.take(i as int), plate@, road)),
        decreases obs.len() - i,
    {
        let ghost t = obs@.take(i + 1);
        assert(t.drop_last() =~= obs@.take(i as int));
        assert(t.last() == obs@[i as int]);
        let ghost prev = readings_of(obs@.take(i as int), plate@, road);
        if obs[i].road == road && obs[i].plate == *plate {
            let o = obs[i].duplicate();
            assert(readings_of(t, plate@, road) == prev.push(o));
            assert(prev.push(o).drop_last() =~= prev);
            insert_observation(&mut res, o);
        } else {
            assert(readings_of(t, plate@, road) == prev);
        }
        i = i + 1;
    }
    assert(obs@.take(obs.len() as int) =~= obs@);
    res
}


/// Seconds in a day; tickets are limited per plate and day.
pub const SECONDS_PER_DAY: u32 = 86400;

/// The day that `time` falls in.
pub open spec fn day_of(time: u32) -> u32 {
    (time / 86400) as u32
}

/// Average speed between two sightings in hundredths of a mile per hour, rounded down and
/// capped at 65535.
pub open spec fn average_speed(a: Observation, b: Observation) -> int {
    let dm: int = if b.mile >= a.mile { b.mile - a.mile } else { a.mile - b.mile };
    let raw: int = (dm * 360000) / (b.time - a.time);
    if raw > 65535 { 65535 } else { raw }
}

/// Average speed between two sightings, `b` taken after `a`.
pub fn average_speed_between(a: &Observation, b: &Observation) -> (res: u16)
    requires
        a.time < b.time,
    ensures
        res == average_speed(*a, *b),
{
    let dt: u32 = b.time - a.time;
    let dm: u32 = if b.mile >= a.mile {
        (b.mile - a.mile) as u32
    } else {
        (a.mile - b.mile) as u32
    };
    assert(dm <= 65535);
    let prod: u64 = (dm as u64) * 360000;
    let raw: u64 = prod / (dt as u64);
    if raw > 65535 {
        65535
    } else {
        raw as u16
    }
}

/// A ticket that the server is ready to send: the window of consecutive sightings that
/// gave it, the dispatcher that should receive it, and its fields.
pub struct TicketPlan {
    pub window: usize,
    pub dispatcher: u64,
    pub plate: String,
    pub road: u16,
    pub mile1: u16,
    pub timestamp1: u32,
    pub mile2: u16,
    pub timestamp2: u32,
    pub speed: u16,
    pub day1: u32,
    pub day2: u32,
}

/// A ticket for `plate` on `day` was issued already.
pub open spec fn has_ticket(tickets: Seq<Ticket>, plate: Seq<char>, day: u32) -> bool {
    exists|i: int| 0 <= i < tickets.len() && #[trigger] tickets[i].plate@ == plate && tickets[i].day == day
}

/// The first dispatcher (in order of registration) responsible for `road`.
pub open spec fn dispatcher_for(ds: Seq<Dispatcher>, road: u16) -> Option<u64>
    decreases ds.len(),
{
    if ds.len() == 0 {
        None
    } else if ds[0].roads@.contains(road) {
        Some(ds[0].client)
    } else {
        dispatcher_for(ds.drop_first(), road)
    }
}

/// The ticket owed for the pair of sightings `r[k]`, `r[k + 1]`, if any: time passed between
/// them, the average speed is over the limit, neither day has a ticket for the plate yet, and
/// some dispatcher covers the road.
pub open spec fn window_plan(
    st: SpeedState,
    plate: String,
    road: u16,
    limit: u16,
    r: Seq<Observation>,
    k: int,
) -> Option<TicketPlan> {
    let a = r[k];
    let b = r[k + 1];
    if b.time <= a.time || average_speed(a, b) <= limit * 100 {
        None
    } else if has_ticket(st.tickets@, plate@, day_of(a.time)) || has_ticket(
        st.tickets@,
        plate@,
        day_of(b.time),
    ) {
        None
    } else {
        match dispatcher_for(st.dispatchers@, road) {
            None => None,
            Some(c) => Some(
                TicketPlan {
                    window: k as usize,
                    dispatcher: c,
                    plate: plate,
                    road: road,
                    mile1: a.mile,
                    timestamp1: a.time,
                    mile2: b.mile,
                    timestamp2: b.time,
                    speed: average_speed(a, b) as u16,
                    day1: day_of(a.time),
                    day2: day_of(b.time),
                },
            ),
        }
    }
}

/// The first ticket owed for a window `k` or later of `r`.
pub open spec fn plan_search(
    st: SpeedState,
    plate: String,
    road: u16,
    limit: u16,
    r: Seq<Observation>,
    k: int,
) -> Option<TicketPlan>
    decreases r.len() - k,
{
    if k < 0 || k + 1 >= r.len() {
        None
    } else {
        match window_plan(st, plate, road, limit, r, k) {
            Some(p) => Some(p),
            None => plan_search(st, plate, road, limit, r, k + 1),
        }
    }
}

/// The next ticket owed for `plate` on `road`, looking at the windows of its time-ordered
/// sightings from window `from` on.
pub open spec fn next_ticket(st: SpeedState, plate: String, road: u16, limit: u16, from: int) -> Option<
    TicketPlan,
> {
    plan_search(st, plate, road, limit, sort_by_time(readings_of(st.observations@, plate@, road)), from)
}

/// The tickets after `p` was sent: one for its first day, and one for its second if different.
pub open spec fn tickets_after(tickets: Seq<Ticket>, p: TicketPlan) -> Seq<Ticket> {
    let t = tickets.push(Ticket { plate: p.plate, day: p.day1 });
    if p.day1 != p.day2 {
        t.push(Ticket { plate: p.plate, day: p.day2 })
    } else {
        t
    }
}

/// Big-endian bytes of a `u16`.
pub open spec fn be16(v: u16) -> Seq<u8> {
    seq![(v / 256) as u8, (v % 256) as u8]
}

/// Big-endian bytes of a `u32`.
pub open spec fn be32(v: u32) -> Seq<u8> {
    seq![(v / 0x1000000) as u8, ((v / 0x10000) % 256) as u8, ((v / 256) % 256) as u8, (v % 256) as u8]
}

/// The wire form of a ticket: tag 0x21, the plate as a length-prefixed UTF-8 string (the
/// length byte keeps the low 8 bits), road, first mile and timestamp, second mile and
/// timestamp, and speed, all big-endian.
pub open spec fn ticket_message(p: TicketPlan) -> Seq<u8> {
    let plate = encode_utf8(p.plate@);
    seq![0x21u8, (plate.len() % 256) as u8] + plate + be16(p.road) + be16(p.mile1) + be32(
        p.timestamp1,
    ) + be16(p.mile2) + be32(p.timestamp2) + be16(p.speed)
}

/// Appends the big-endian bytes of `v`.
fn push_be16(out: &mut Vec<u8>, v: u16)
    ensures
        final(out)@ == old(out)@ + be16(v),
{
    out.push((v / 256) as u8);
    out.push((v % 256) as u8);
    assert(out@ =~= old(out)@ + be16(v));
}

/// Appends the big-endian bytes of `v`.
fn push_be32(out: &mut Vec<u8>, v: u32)
    ensures
        final(out)@ == old(out)@ + be32(v),
{
    out.push((v / 0x1000000) as u8);
    out.push(((v / 0x10000) % 256) as u8);
    out.push(((v / 256) % 256) as u8);
    out.push((v % 256) as u8);
    assert(out@ =~= old(out)@ + be32(v));
}

/// Appends `bytes`.
fn push_bytes(out: &mut Vec<u8>, bytes: &[u8])
    ensures
        final(out)@ == old(out)@ + bytes@,
{
    let mut i: usize = 0;
    while i < bytes.len()
        invariant
            i <= bytes.len(),
            out@ == old(out)@ + bytes@.take(i as int),
        decreases bytes.len() - i,
    {
        out.push(bytes[i]);
        i = i + 1;
        assert(out@ =~= old(out)@ + bytes@.take(i as int));
    }
    assert(bytes@.take(bytes.len() as int) =~= bytes@);
}

impl TicketPlan {
    /// The bytes sent to the dispatcher for this ticket.
    pub fn message(&self) -> (res: Vec<u8>)
        ensures
            res@ == ticket_message(*self),
    {
        let plate: &[u8] = self.plate.as_str().as_bytes();
        let n: usize = plate.len();
        let mut out: Vec<u8> = Vec::new();
        out.push(0x21u8);
        assert((n as u8) == (n % 256) as u8) by (bit_vector);
        out.push(n as u8);
        push_bytes(&mut out, plate);
        push_be16(&mut out, self.road);
        push_be16(&mut out, self.mile1);
        push_be32(&mut out, self.timestamp1);
        push_be16(&mut out, self.mile2);
        push_be32(&mut out, self.timestamp2);
        push_be16(&mut out, self.speed);
        assert(out@ =~= ticket_message(*self));
        out
    }
}

impl SpeedState {
    /// A server with no connections, sightings or tickets.
    pub fn new() -> (res: SpeedState)
        ensures
            res.heartbeats@ == Seq::<HeartbeatSub>::empty(),
            res.cameras@ == Seq::<Camera>::empty(),
            res.dispatchers@ == Seq::<Dispatcher>::empty(),
            res.observations@ == Seq::<Observation>::empty(),
            res.tickets@ == Seq::<Ticket>::empty(),
    {
        SpeedState {
            heartbeats: Vec::new(),
            cameras: Vec::new(),
            dispatchers: Vec::new(),
            observations: Vec::new(),
            tickets: Vec::new(),
        }
    }

    /// Whether a ticket for `plate` on `day` was issued.
    pub fn ticket_exists(&self, plate: &String, day: u32) -> (res: bool)
        ensures
            res == has_ticket(self.tickets@, plate@, day),
    {
        let mut i: usize = 0;
        while i < self.tickets.len()
            invariant
                i <= self.tickets.len(),
                forall|j: int|
                    0 <= j < i ==> !(#[trigger] self.tickets@[j].plate@ == plate@
                        && self.tickets@[j].day == day),
            decreases self.tickets.len() - i,
        {
            if self.tickets[i].day == day && self.tickets[i].plate == *plate {
                return true;
            }
            i = i + 1;
        }
        false
    }

    /// The first registered dispatcher responsible for `road`.
    pub fn dispatcher_for_road(&self, road: u16) -> (res: Option<u64>)
        ensures
            res == dispatcher_for(self.dispatchers@, road),
    {
        let mut i: usize = 0;
        assert(self.dispatchers@.skip(0) =~= self.dispatchers@);
        while i < self.dispatchers.len()
            invariant
                i <= self.dispatchers.len(),
                dispatcher_for(self.dispatchers@, road) == dispatcher_for(
                    self.dispatchers@.skip(i as int),
                    road,
                ),
            decreases self.dispatchers.len() - i,
        {
            assert(self.dispatchers@.skip(i as int).drop_first() =~= self.dispatchers@.skip(i + 1));
            assert(self.dispatchers@.skip(i as int)[0] == self.dispatchers@[i as int]);
            if contains_road(&self.dispatchers[i].roads, road) {
                return Some(self.dispatchers[i].client);
            }
            i = i + 1;
        }
        None
    }

    /// The next ticket owed for `plate` on `road` (speed limit `limit`), looking at windows of
    /// consecutive sightings from window `from` on; `None` when no ticket is owed.
    pub fn plan_ticket(&self, plate: &String, road: u16, limit: u16, from: usize) -> (res: Option<
        TicketPlan,
    >)
        ensures
            res == next_ticket(*self, *plate, road, limit, from as int),
            res matches Some(p) ==> {
                &&& !has_ticket(self.tickets@, plate@, p.day1)
                &&& !has_ticket(self.tickets@, plate@, p.day2)
                &&& p.speed > limit * 100
                &&& p.timestamp1 < p.timestamp2
                &&& p.plate == *plate
                &&& p.road == road
                &&& from <= p.window
                &&& dispatcher_for(self.dispatchers@, road) == Some(p.dispatcher)
            },
    {
        let r = sorted_readings(&self.observations, plate, road);
        let ghost rs = r@;
        proof {
            lemma_sort_by_time_sorted(readings_of(self.observations@, plate@, road));
        }
        let disp = self.dispatcher_for_road(road);
        let mut k: usize = from;
        while k < r.len() && k + 1 < r.len()
            invariant
                from <= k,
                r@ == rs,
                rs == sort_by_time(readings_of(self.observations@, plate@, road)),
                time_sorted(rs),
                disp == dispatcher_for(self.dispatchers@, road),
                plan_search(*self, *plate, road, limit, rs, from as int) == plan_search(
                    *self,
                    *plate,
                    road,
                    limit,
                    rs,
                    k as int,
                ),
            decreases r.len() - k,
        {
            let a = &r[k];
            let b = &r[k + 1];
            assert(rs[k as int].time <= rs[k + 1].time);
            if b.time > a.time {
                let speed = average_speed_between(a, b);
                if (speed as u32) > (limit as u32) * 100 {
                    let day1 = a.time / SECONDS_PER_DAY;
                    let day2 = b.time / SECONDS_PER_DAY;
                    if !self.ticket_exists(plate, day1) && !self.ticket_exists(plate, day2) {
                        if let Some(c) = disp {
                            let p = TicketPlan {
                                window: k,
                                dispatcher: c,
                                plate: plate.clone(),
                                road: road,
                                mile1: a.mile,
                                timestamp1: a.time,
                                mile2: b.mile,
                                timestamp2: b.time,
                                speed: speed,
                                day1: day1,
                                day2: day2,
                            };
                            assert(window_plan(*self, *plate, road, limit, rs, k as int) == Some(p));
                            assert(plan_search(*self, *plate, road, limit, rs, k as int) == Some(p));
                            return Some(p);
                        }
                    }
                }
            }
            k = k + 1;
        }
        None
    }

    /// Records the tickets of a plan that was delivered: one for each of its days.
    pub fn commit_ticket(&mut self, plan: &TicketPlan)
        ensures
            final(self).tickets@ == tickets_after(old(self).tickets@, *plan),
            final(self).heartbeats@ == old(self).heartbeats@,
            final(self).cameras@ == old(self).cameras@,
            final(self).dispatchers@ == old(self).dispatchers@,
            final(self).observations@ == old(self).observations@,
    {
        self.tickets.push(Ticket { plate: plan.plate.clone(), day: plan.day1 });
        if plan.day1 != plan.day2 {
            self.tickets.push(Ticket { plate: plan.plate.clone(), day: plan.day2 });
        }
    }
}

/// Whether `road` is among `roads`.
pub fn contains_road(roads: &Vec<u16>, road: u16) -> (res: bool)
    ensures
        res == roads@.contains(road),
{
    let mut i: usize = 0;
    while i < roads.len()
        invariant
            i <= roads.len(),
            forall|j: int| 0 <= j < i ==> roads@[j] != road,
        decreases roads.len() - i,
    {
        if roads[i] == road {
            assert(roads@[i as int] == road);
            return true;
        }
        i = i + 1;
    }
    false
}

/// A registration that belongs to one client connection.
pub trait ClientOwned {
    /// The connection it belongs to.
    spec fn owner(&self) -> u64;

    /// The connection it belongs to.
    fn client_id(&self) -> (res: u64)
        ensures
            res == self.owner(),
    ;
}

impl ClientOwned for Camera {
    open spec fn owner(&self) -> u64 {
        self.client
    }

    fn client_id(&self) -> (res: u64) {
        self.client
    }
}

impl ClientOwned for Dispatcher {
    open spec fn owner(&self) -> u64 {
        self.client
    }

    fn client_id(&self) -> (res: u64) {
        self.client
    }
}

impl ClientOwned for HeartbeatSub {
    open spec fn owner(&self) -> u64 {
        self.client
    }

    fn client_id(&self) -> (res: u64) {
        self.client
    }
}

/// `s` without the registrations of `client`, the others in their order.
pub open spec fn without_client<T: ClientOwned>(s: Seq<T>, client: u64) -> Seq<T>
    decreases s.len(),
{
    if s.len() == 0 {
        s
    } else {
        let rest = without_client(s.drop_first(), client);
        if s[0].owner() == client {
            rest
        } else {
            seq![s[0]] + rest
        }
    }
}

/// Some registration in `s` belongs to `client`.
pub open spec fn registered<T: ClientOwned>(s: Seq<T>, client: u64) -> bool {
    exists|i: int| 0 <= i < s.len() && #[trigger] s[i].owner() == client
}

/// Removes the registrations of `client` from `v`.
fn remove_client<T: ClientOwned>(v: &mut Vec<T>, client: u64)
    ensures
        final(v)@ == without_client(old(v)@, client),
{
    let mut i: usize = 0;
    assert(v@.take(0) + v@.skip(0) =~= v@);
    assert(v@.take(0) =~= Seq::<T>::empty());
    assert(v@.skip(0) =~= v@);
    while i < v.len()
        invariant
            i <= v.len(),
            without_client(old(v)@, client) == v@.take(i as int) + without_client(
                v@.skip(i as int),
                client,
            ),
        decreases v.len() - i,
    {
        let ghost pre = v@;
        assert(pre.skip(i as int).drop_first() =~= pre.skip(i + 1));
        assert(pre.skip(i as int)[0] == pre[i as int]);
        if v[i].client_id() == client {
            v.remove(i);
            assert(v@.take(i as int) =~= pre.take(i as int));
            assert(v@.skip(i as int) =~= pre.skip(i + 1));
        } else {
            assert(pre.take(i + 1) =~= pre.take(i as int) + seq![pre[i as int]]);
            i = i + 1;
        }
    }
    assert(v@.take(i as int) =~= v@);
    assert(v@.skip(i as int) =~= Seq::<T>::empty());
}

/// Whether some registration in `v` belongs to `client`.
fn is_registered<T: ClientOwned>(v: &Vec<T>, client: u64) -> (res: bool)
    ensures
        res == registered(v@, client),
{
    let mut i: usize = 0;
    while i < v.len()
        invariant
            i <= v.len(),
            forall|j: int| 0 <= j < i ==> #[trigger] v@[j].owner() != client,
        decreases v.len() - i,
    {
        if v[i].client_id() == client {
            return true;
        }
        i = i + 1;
    }
    false
}

/// The camera of `client`: the last one registered for it.
pub open spec fn camera_of(cs: Seq<Camera>, client: u64) -> Option<Camera>
    decreases cs.len(),
{
    if cs.len() == 0 {
        None
    } else if cs.last().client == client {
        Some(cs.last())
    } else {
        camera_of(cs.drop_last(), client)
    }
}

/// The sightings on any of `roads`, in order of arrival.
pub open spec fn observations_on(obs: Seq<Observation>, roads: Seq<u16>) -> Seq<Observation>
    decreases obs.len(),
{
    if obs.len() == 0 {
        obs
    } else {
        let rest = observations_on(obs.drop_last(), roads);
        if roads.contains(obs.last().road) {
            rest.push(obs.last())
        } else {
            rest
        }
    }
}

/// What kind of message a client sent, by its first byte.
pub enum MessageKind {
    Plate,
    WantHeartbeat,
    IAmCamera,
    IAmDispatcher,
    Unknown,
}

/// The kind of a client message with first byte `tag`.
pub fn message_kind(tag: u8) -> (res: MessageKind)
    ensures
        tag == 0x20 <==> res is Plate,
        tag == 0x40 <==> res is WantHeartbeat,
        tag == 0x80 <==> res is IAmCamera,
        tag == 0x81 <==> res is IAmDispatcher,
        (tag != 0x20 && tag != 0x40 && tag != 0x80 && tag != 0x81) <==> res is Unknown,
{
    if tag == 0x20 {
        MessageKind::Plate
    } else if tag == 0x40 {
        MessageKind::WantHeartbeat
    } else if tag == 0x80 {
        MessageKind::IAmCamera
    } else if tag == 0x81 {
        MessageKind::IAmDispatcher
    } else {
        MessageKind::Unknown
    }
}

/// The error message sent before a misbehaving connection is closed: tag 0x10 and the
/// length-prefixed string "bad".
pub fn error_message() -> (res: Vec<u8>)
    ensures
        res@ == seq![0x10u8, 0x03u8, 0x62u8, 0x61u8, 0x64u8],
{
    let mut out: Vec<u8> = Vec::new();
    out.push(0x10u8);
    out.push(0x03u8);
    out.push(0x62u8);
    out.push(0x61u8);
    out.push(0x64u8);
    assert(out@ =~= seq![0x10u8, 0x03u8, 0x62u8, 0x61u8, 0x64u8]);
    out
}

/// The heartbeat message.
pub const HEARTBEAT: u8 = 0x41;

/// Whether a connection that asked for heartbeats every `interval` deciseconds gets one at
/// tick `tick` (ticks are a tenth of a second apart). An interval of zero means never.
pub fn heartbeat_due(interval: u32, tick: u128) -> (res: bool)
    ensures
        res == (interval != 0 && tick % (interval as u128) == 0),
{
    interval != 0 && tick % (interval as u128) == 0
}

/// The value of two big-endian bytes.
pub fn u16_from_be(b: [u8; 2]) -> (res: u16)
    ensures
        res == b[0] * 256 + b[1],
{
    (b[0] as u16) * 256 + (b[1] as u16)
}

/// The value of four big-endian bytes.
pub fn u32_from_be(b: [u8; 4]) -> (res: u32)
    ensures
        res == b[0] * 0x1000000 + b[1] * 0x10000 + b[2] * 256 + b[3],
{
    (b[0] as u32) * 0x1000000 + (b[1] as u32) * 0x10000 + (b[2] as u32) * 256 + (b[3] as u32)
}

/// A plate as a string: each byte read off the wire stands for the character of that code.
pub fn plate_from_bytes(raw: &[u8]) -> (res: String)
    ensures
        res@.len() == raw@.len(),
        forall|i: int| 0 <= i < raw@.len() ==> #[trigger] res@[i] == (raw@[i] as char),
{
    let mut chars: Vec<char> = Vec::new();
    let mut i: usize = 0;
    while i < raw.len()
        invariant
            i <= raw.len(),
            chars@.len() == i,
            forall|j: int| 0 <= j < i ==> #[trigger] chars@[j] == (raw@[j] as char),
        decreases raw.len() - i,
    {
        chars.push(raw[i] as char);
        i = i + 1;
    }
    string_from_chars(chars.as_slice())
}

impl SpeedState {
    /// A connection asks for heartbeats. Refused (`false`, nothing changes) when it asked
    /// before; otherwise remembered.
    pub fn want_heartbeat(&mut self, client: u64, interval: u32) -> (res: bool)
        ensures
            res == !registered(old(self).heartbeats@, client),
            res ==> final(self).heartbeats@ == old(self).heartbeats@.push(
                HeartbeatSub { client, interval },
            ),
            !res ==> final(self).heartbeats@ == old(self).heartbeats@,
            final(self).cameras@ == old(self).cameras@,
            final(self).dispatchers@ == old(self).dispatchers@,
            final(self).observations@ == old(self).observations@,
            final(self).tickets@ == old(self).tickets@,
    {
        if is_registered(&self.heartbeats, client) {
            return false;
        }
        self.heartbeats.push(HeartbeatSub { client, interval });
        true
    }

    /// A connection says it is a camera. Refused (`false`, nothing changes) when it said so
    /// before; otherwise the camera is recorded, and the answer is `false` still when the
    /// connection is a dispatcher too.
    pub fn register_camera(&mut self, client: u64, road: u16, mile: u16, limit: u16) -> (res: bool)
        ensures
            registered(old(self).cameras@, client) ==> final(self).cameras@ == old(self).cameras@,
            !registered(old(self).cameras@, client) ==> final(self).cameras@ == old(
                self,
            ).cameras@.push(Camera { client, road, mile, limit }),
            res == (!registered(old(self).cameras@, client) && !registered(
                old(self).dispatchers@,
                client,
            )),
            final(self).heartbeats@ == old(self).heartbeats@,
            final(self).dispatchers@ == old(self).dispatchers@,
            final(self).observations@ == old(self).observations@,
            final(self).tickets@ == old(self).tickets@,
    {
        if is_registered(&self.cameras, client) {
            return false;
        }
        self.cameras.push(Camera { client, road, mile, limit });
        !is_registered(&self.dispatchers, client)
    }

    /// A connection says it is a dispatcher for `roads`. Refused (`false`, nothing changes)
    /// when it said so before; otherwise the dispatcher is recorded, and the answer is `false`
    /// still when the connection is a camera too.
    pub fn register_dispatcher(&mut self, client: u64, roads: Vec<u16>) -> (res: bool)
        ensures
            registered(old(self).dispatchers@, client) ==> final(self).dispatchers@ == old(
                self,
            ).dispatchers@,
            !registered(old(self).dispatchers@, client) ==> final(self).dispatchers@ == old(
                self,
            ).dispatchers@.push(Dispatcher { client, roads }),
            res == (!registered(old(self).dispatchers@, client) && !registered(
                old(self).cameras@,
                client,
            )),
            final(self).heartbeats@ == old(self).heartbeats@,
            final(self).cameras@ == old(self).cameras@,
            final(self).observations@ == old(self).observations@,
            final(self).tickets@ == old(self).tickets@,
    {
        if is_registered(&self.dispatchers, client) {
            return false;
        }
        self.dispatchers.push(Dispatcher { client, roads });
        !is_registered(&self.cameras, client)
    }

    /// The camera registered for `client`, if any (the last one).
    pub fn camera_for(&self, client: u64) -> (res: Option<(u16, u16, u16)>)
        ensures
            res == (match camera_of(self.cameras@, client) {
                Some(c) => Some((c.road, c.mile, c.limit)),
                None => None,
            }),
    {
        let mut i: usize = self.cameras.len();
        assert(self.cameras@.take(i as int) =~= self.cameras@);
        while i > 0
            invariant
                i <= self.cameras.len(),
                camera_of(self.cameras@, client) == camera_of(self.cameras@.take(i as int), client),
            decreases i,
        {
            let ghost t = self.cameras@.take(i as int);
            assert(t.drop_last() =~= self.cameras@.take(i - 1));
            assert(t.last() == self.cameras@[i - 1]);
            let c = &self.cameras[i - 1];
            if c.client == client {
                return Some((c.road, c.mile, c.limit));
            }
            i = i - 1;
        }
        None
    }

    /// A camera connection reports `plate` at `time`. When the connection is no camera the
    /// report is refused (`None`, nothing changes); otherwise the sighting is recorded at the
    /// camera's road and mile, and the road and its limit are returned.
    pub fn record_plate(&mut self, client: u64, plate: String, time: u32) -> (res: Option<(u16, u16)>)
        ensures
            match camera_of(old(self).cameras@, client) {
                None => res is None && final(self).observations@ == old(self).observations@,
                Some(c) => res == Some((c.road, c.limit)) && final(self).observations@ == old(
                    self,
                ).observations@.push(
                    Observation { plate, time, mile: c.mile, road: c.road, limit: c.limit },
                ),
            },
            final(self).heartbeats@ == old(self).heartbeats@,
            final(self).cameras@ == old(self).cameras@,
            final(self).dispatchers@ == old(self).dispatchers@,
            final(self).tickets@ == old(self).tickets@,
    {
        match self.camera_for(client) {
            None => None,
            Some((road, mile, limit)) => {
                self.observations.push(Observation { plate, time, mile, road, limit });
                Some((road, limit))
            },
        }
    }

    /// Copies of the sightings on any of `roads`, in order of arrival.
    pub fn observations_on_roads(&self, roads: &Vec<u16>) -> (res: Vec<Observation>)
        ensures
            res@ == observations_on(self.observations@, roads@),
    {
        let mut res: Vec<Observation> = Vec::new();
        let mut i: usize = 0;
        while i < self.observations.len()
            invariant
                i <= self.observations.len(),
                res@ == observations_on(self.observations@.take(i as int), roads@),
            decreases self.observations.len() - i,
        {
            let ghost t = self.observations@.take(i + 1);
            assert(t.drop_last() =~= self.observations@.take(i as int));
            assert(t.last() == self.observations@[i as int]);
            if contains_road(roads, self.observations[i].road) {
                res.push(self.observations[i].duplicate());
            }
            i = i + 1;
        }
        assert(self.observations@.take(self.observations.len() as int) =~= self.observations@);
        res
    }

    /// A connection went away: its heartbeat request, camera and dispatcher registrations
    /// are dropped; sightings and tickets stay.
    pub fn disconnect(&mut self, client: u64)
        ensures
            final(self).heartbeats@ == without_client(old(self).heartbeats@, client),
            final(self).cameras@ == without_client(old(self).cameras@, client),
            final(self).dispatchers@ == without_client(old(self).dispatchers@, client),
            final(self).observations@ == old(self).observations@,
            final(self).tickets@ == old(self).tickets@,
    {
        remove_client(&mut self.heartbeats, client);
        remove_client(&mut self.cameras, client);
        remove_client(&mut self.dispatchers, client);
    }
}

/// Facts about any ticket that the search finds.
proof fn lemma_plan_search_facts(
    st: SpeedState,
    plate: String,
    road: u16,
    limit: u16,
    r: Seq<Observation>,
    k: int,
)
    ensures
        plan_search(st, plate, road, limit, r, k) matches Some(p) ==> {
            &&& !has_ticket(st.tickets@, plate@, p.day1)
            &&& !has_ticket(st.tickets@, plate@, p.day2)
            &&& p.plate == plate
            &&& exists|w: int|
                0 <= w && w + 1 < r.len() && #[trigger] r[w].time == p.timestamp1 && r[w].mile
                    == p.mile1 && r[w + 1].time == p.timestamp2 && r[w + 1].mile == p.mile2
        },
    decreases r.len() - k,
{
    if k < 0 || k + 1 >= r.len() {
    } else {
        match window_plan(st, plate, road, limit, r, k) {
            Some(p) => {
                assert(r[k].time == p.timestamp1);
            },
            None => lemma_plan_search_facts(st, plate, road, limit, r, k + 1),
        }
    }
}

/// At most one ticket per plate and day: once a planned ticket has been committed, no
/// later plan for the same plate, on any road, falls on either of its days.
pub proof fn lemma_one_ticket_per_day(
    st: SpeedState,
    plate: String,
    road: u16,
    limit: u16,
    from: int,
    p: TicketPlan,
    later: SpeedState,
    road2: u16,
    limit2: u16,
    from2: int,
)
    requires
        next_ticket(st, plate, road, limit, from) == Some(p),
        later.tickets@ == tickets_after(st.tickets@, p),
    ensures
        next_ticket(later, plate, road2, limit2, from2) matches Some(q) ==> {
            &&& q.day1 != p.day1 && q.day1 != p.day2
            &&& q.day2 != p.day1 && q.day2 != p.day2
        },
{
    let r = sort_by_time(readings_of(st.observations@, plate@, road));
    lemma_plan_search_facts(st, plate, road, limit, r, from);
    let r2 = sort_by_time(readings_of(later.observations@, plate@, road2));
    lemma_plan_search_facts(later, plate, road2, limit2, r2, from2);
    let after = tickets_after(st.tickets@, p);
    let n = st.tickets@.len() as int;
    assert(p.plate == plate);
    assert(has_ticket(after, plate@, p.day1)) by {
        assert(after[n] == Ticket { plate: p.plate, day: p.day1 });
        assert(after[n].plate@ == plate@ && after[n].day == p.day1);
    }
    assert(has_ticket(after, plate@, p.day2)) by {
        if p.day1 != p.day2 {
            assert(after[n + 1] == Ticket { plate: p.plate, day: p.day2 });
            assert(after[n + 1].plate@ == plate@ && after[n + 1].day == p.day2);
        } else {
            assert(after[n] == Ticket { plate: p.plate, day: p.day1 });
            assert(after[n].plate@ == plate@ && after[n].day == p.day2);
        }
    }
}

/// No two recorded tickets are for the same plate and day.
pub open spec fn tickets_distinct(t: Seq<Ticket>) -> bool {
    forall|i: int, j: int|
        0 <= i < j < t.len() ==> !(#[trigger] t[i].plate@ == #[trigger] t[j].plate@ && t[i].day
            == t[j].day)
}

/// Committing a planned ticket keeps the recorded tickets free of repeats.
pub proof fn lemma_commit_keeps_tickets_distinct(
    st: SpeedState,
    plate: String,
    road: u16,
    limit: u16,
    from: int,
    p: TicketPlan,
)
    requires
        tickets_distinct(st.tickets@),
        next_ticket(st, plate, road, limit, from) == Some(p),
    ensures
        tickets_distinct(tickets_after(st.tickets@, p)),
{
    let r = sort_by_time(readings_of(st.observations@, plate@, road));
    lemma_plan_search_facts(st, plate, road, limit, r, from);
    let old_t = st.tickets@;
    let after = tickets_after(old_t, p);
    assert forall|i: int, j: int| 0 <= i < j < after.len() implies !(
    #[trigger] after[i].plate@ == #[trigger] after[j].plate@ && after[i].day == after[j].day) by {
        if j < old_t.len() {
            assert(after[i] == old_t[i] && after[j] == old_t[j]);
        } else if i < old_t.len() {
            assert(after[i] == old_t[i]);
            if after[i].plate@ == after[j].plate@ && after[i].day == after[j].day {
                assert(after[j].plate == p.plate);
                assert(after[j].day == p.day1 || after[j].day == p.day2);
                assert(has_ticket(old_t, plate@, after[j].day));
            }
        } else {
            assert(j == old_t.len() + 1 && p.day1 != p.day2);
        }
    }
}

/// After a disconnect nothing registered belongs to that connection any more.
pub proof fn lemma_disconnect_forgets_client<T: ClientOwned>(s: Seq<T>, client: u64)
    ensures
        !registered(without_client(s, client), client),
    decreases s.len(),
{
    if s.len() > 0 {
        lemma_disconnect_forgets_client(s.drop_first(), client);
        let rest = without_client(s.drop_first(), client);
        if s[0].owner() != client {
            let w = seq![s[0]] + rest;
            assert forall|i: int| 0 <= i < w.len() implies #[trigger] w[i].owner() != client by {
                if i > 0 {
                    assert(w[i] == rest[i - 1]);
                }
            }
        }
    }
}

/// The connections owed a heartbeat at `tick`, in order of request.
pub open spec fn due_clients(hs: Seq<HeartbeatSub>, tick: u128) -> Seq<u64>
    decreases hs.len(),
{
    if hs.len() == 0 {
        Seq::empty()
    } else {
        let rest = due_clients(hs.drop_last(), tick);
        let h = hs.last();
        if h.interval != 0 && tick % (h.interval as u128) == 0 {
            rest.push(h.client)
        } else {
            rest
        }
    }
}

impl SpeedState {
    /// The connections that get a heartbeat at tick `tick`.
    pub fn due_heartbeats(&self, tick: u128) -> (res: Vec<u64>)
        ensures
            res@ == due_clients(self.heartbeats@, tick),
    {
        let mut res: Vec<u64> = Vec::new();
        let mut i: usize = 0;
        while i < self.heartbeats.len()
            invariant
                i <= self.heartbeats.len(),
                res@ == due_clients(self.heartbeats@.take(i as int), tick),
            decreases self.heartbeats.len() - i,
        {
            let ghost t = self.heartbeats@.take(i + 1);
            assert(t.drop_last() =~= self.heartbeats@.take(i as int));
            assert(t.last() == self.heartbeats@[i as int]);
            if heartbeat_due(self.heartbeats[i].interval, tick) {
                res.push(self.heartbeats[i].client);
            }
            i = i + 1;
        }
        assert(self.heartbeats@.take(self.heartbeats.len() as int) =~= self.heartbeats@);
        res
    }
}

/// The sightings of a plate on a road are exactly the sightings in `obs` that are on that
/// road and carry that plate.
pub proof fn lemma_readings_are_filter(obs: Seq<Observation>, plate: Seq<char>, road: u16)
    ensures
        forall|o: Observation|
            #[trigger] readings_of(obs, plate, road).contains(o) <==> (obs.contains(o) && o.road
                == road && o.plate@ == plate),
    decreases obs.len(),
{
    if obs.len() > 0 {
        let init = obs.drop_last();
        lemma_readings_are_filter(init, plate, road);
        let rest = readings_of(init, plate, road);
        assert(init.push(obs.last()) =~= obs);
        assert forall|o: Observation| #[trigger] readings_of(obs, plate, road).contains(o) <==> (
        obs.contains(o) && o.road == road && o.plate@ == plate) by {
            let r = readings_of(obs, plate, road);
            if r.contains(o) {
                let j = choose|j: int| 0 <= j < r.len() && r[j] == o;
                if j < rest.len() {
                    assert(rest[j] == o);
                    assert(rest.contains(o));
                    let i = choose|i: int| 0 <= i < init.len() && init[i] == o;
                    assert(obs[i] == o);
                } else {
                    assert(obs[obs.len() - 1] == o);
                }
            }
            if obs.contains(o) && o.road == road && o.plate@ == plate {
                let i = choose|i: int| 0 <= i < obs.len() && obs[i] == o;
                if i < init.len() {
                    assert(init[i] == o);
                    assert(init.contains(o));
                    assert(rest.contains(o));
                    let j = choose|j: int| 0 <= j < rest.len() && rest[j] == o;
                    assert(r[j] == o);
                } else {
                    assert(r[r.len() - 1] == o);
                }
            }
        }
    }
}

/// A planned ticket pairs two sightings of its plate on its road: the times and miles of the
/// ticket are those of sightings recorded for that plate on that road.
pub proof fn lemma_ticket_from_sightings_on_road(
    st: SpeedState,
    plate: String,
    road: u16,
    limit: u16,
    from: int,
)
    ensures
        next_ticket(st, plate, road, limit, from) matches Some(p) ==> {
            &&& exists|i: int|
                0 <= i < st.observations@.len() && #[trigger] st.observations@[i].road == road
                    && st.observations@[i].plate@ == plate@ && st.observations@[i].time
                    == p.timestamp1 && st.observations@[i].mile == p.mile1
            &&& exists|j: int|
                0 <= j < st.observations@.len() && #[trigger] st.observations@[j].road == road
                    && st.observations@[j].plate@ == plate@ && st.observations@[j].time
                    == p.timestamp2 && st.observations@[j].mile == p.mile2
        },
{
    broadcast use vstd::seq_lib::group_to_multiset_ensures;

    let obs = st.observations@;
    let rd = readings_of(obs, plate@, road);
    let r = sort_by_time(rd);
    lemma_plan_search_facts(st, plate, road, limit, r, from);
    lemma_sort_by_time_sorted(rd);
    lemma_readings_are_filter(obs, plate@, road);
    if let Some(p) = next_ticket(st, plate, road, limit, from) {
        let w = choose|w: int|
            0 <= w && w + 1 < r.len() && #[trigger] r[w].time == p.timestamp1 && r[w].mile
                == p.mile1 && r[w + 1].time == p.timestamp2 && r[w + 1].mile == p.mile2;
        let a = r[w];
        let b = r[w + 1];
        assert(r.contains(a));
        assert(r.contains(b));
        assert(r.to_multiset().count(a) > 0);
        assert(r.to_multiset().count(b) > 0);
        assert(rd.contains(a));
        assert(rd.contains(b));
        let i = choose|i: int| 0 <= i < obs.len() && obs[i] == a;
        let j = choose|j: int| 0 <= j < obs.len() && obs[j] == b;
        assert(obs[i].road == road);
        assert(obs[j].road == road);
    }
}

/// The sightings pending for new roads are exactly the recorded sightings on one of those
/// roads, whichever of them it is.
pub proof fn lemma_observations_on_membership(obs: Seq<Observation>, roads: Seq<u16>)
    ensures
        forall|o: Observation|
            #[trigger] observations_on(obs, roads).contains(o) <==> (obs.contains(o)
                && roads.contains(o.road)),
    decreases obs.len(),
{
    if obs.len() > 0 {
        let init = obs.drop_last();
        lemma_observations_on_membership(init, roads);
        let rest = observations_on(init, roads);
        assert forall|o: Observation| #[trigger] observations_on(obs, roads).contains(o) <==> (
        obs.contains(o) && roads.contains(o.road)) by {
            let r = observations_on(obs, roads);
            if r.contains(o) {
                let j = choose|j: int| 0 <= j < r.len() && r[j] == o;
                if j < rest.len() {
                    assert(rest[j] == o);
                    assert(rest.contains(o));
                    let i = choose|i: int| 0 <= i < init.len() && init[i] == o;
                    assert(obs[i] == o);
                } else {
                    assert(obs[obs.len() - 1] == o);
                }
            }
            if obs.contains(o) && roads.contains(o.road) {
                let i = choose|i: int| 0 <= i < obs.len() && obs[i] == o;
                if i < init.len() {
                    assert(init[i] == o);
                    assert(init.contains(o));
                    assert(rest.contains(o));
                    let j = choose|j: int| 0 <= j < rest.len() && rest[j] == o;
                    assert(r[j] == o);
                } else {
                    assert(r[r.len() - 1] == o);
                }
            }
        }
    }
}

/// Two bytes written by `be16` read back big-endian as the value written.
pub proof fn lemma_be16_round_trip(v: u16)
    ensures
        be16(v).len() == 2,
        be16(v)[0] * 256 + be16(v)[1] == v,
{
    let b = be16(v);
    assert(b[0] == v / 256 && b[1] == v % 256);
}

/// Four bytes written by `be32` read back big-endian as the value written.
pub proof fn lemma_be32_round_trip(v: u32)
    ensures
        be32(v).len() == 4,
        be32(v)[0] * 0x1000000 + be32(v)[1] * 0x10000 + be32(v)[2] * 256 + be32(v)[3] == v,
{
    let b = be32(v);
    let x = v as int;
    assert(b[0] == x / 0x1000000);
    assert(b[1] == (x / 0x10000) % 256);
    assert(b[2] == (x / 256) % 256);
    assert(b[3] == x % 256);
    assert((x / 0x1000000) * 0x1000000 + ((x / 0x10000) % 256) * 0x10000 + ((x / 256) % 256) * 256
        + x % 256 == x) by (nonlinear_arith)
        requires 0 <= x < 0x100000000;
}

/// Reading a ticket's bytes back at their places gives the ticket's road, miles, timestamps
/// and speed, big-endian, after the tag, the length byte and the plate.
pub proof fn lemma_ticket_message_fields(p: TicketPlan)
    ensures
        ({
            let m = ticket_message(p);
            let o: int = 2 + encode_utf8(p.plate@).len() as int;
            &&& m.len() == o + 16
            &&& m[0] == 0x21
            &&& m.subrange(2, o) == encode_utf8(p.plate@)
            &&& m[o] * 256 + m[o + 1] == p.road
            &&& m[o + 2] * 256 + m[o + 3] == p.mile1
            &&& m[o + 4] * 0x1000000 + m[o + 5] * 0x10000 + m[o + 6] * 256 + m[o + 7] == p.timestamp1
            &&& m[o + 8] * 256 + m[o + 9] == p.mile2
            &&& m[o + 10] * 0x1000000 + m[o + 11] * 0x10000 + m[o + 12] * 256 + m[o + 13]
                == p.timestamp2
            &&& m[o + 14] * 256 + m[o + 15] == p.speed
        }),
{
    let m = ticket_message(p);
    let pl = encode_utf8(p.plate@);
    let o: int = 2 + pl.len() as int;
    lemma_be16_round_trip(p.road);
    lemma_be16_round_trip(p.mile1);
    lemma_be32_round_trip(p.timestamp1);
    lemma_be16_round_trip(p.mile2);
    lemma_be32_round_trip(p.timestamp2);
    lemma_be16_round_trip(p.speed);
    let head = seq![0x21u8, (pl.len() % 256) as u8] + pl;
    assert(m =~= head + be16(p.road) + be16(p.mile1) + be32(p.timestamp1) + be16(p.mile2) + be32(
        p.timestamp2,
    ) + be16(p.speed));
    assert(m.subrange(2, o) =~= pl);
    assert(m[o] == be16(p.road)[0] && m[o + 1] == be16(p.road)[1]);
    assert(m[o + 2] == be16(p.mile1)[0] && m[o + 3] == be16(p.mile1)[1]);
    assert(m[o + 4] == be32(p.timestamp1)[0] && m[o + 5] == be32(p.timestamp1)[1]);
    assert(m[o + 6] == be32(p.timestamp1)[2] && m[o + 7] == be32(p.timestamp1)[3]);
    assert(m[o + 8] == be16(p.mile2)[0] && m[o + 9] == be16(p.mile2)[1]);
    assert(m[o + 10] == be32(p.timestamp2)[0] && m[o + 11] == be32(p.timestamp2)[1]);
    assert(m[o + 12] == be32(p.timestamp2)[2] && m[o + 13] == be32(p.timestamp2)[3]);
    assert(m[o + 14] == be16(p.speed)[0] && m[o + 15] == be16(p.speed)[1]);
}

} // verus!
