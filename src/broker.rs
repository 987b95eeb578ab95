//! The topic broker: the registry from topic names to subscriber handles, and
//! the plan of every fan-out.
//!
//! A subscriber handle is a `u64` that identifies one open connection. The
//! broker never sends anything itself: `publish` and `generate_data` return
//! the deliveries to attempt, and `record_send_results` takes back what came
//! of them, evicting every handle whose inbox turned out to be closed.
use vstd::prelude::*;
use crate::text::{heartbeat_event_text, heartbeat_text};

verus! {

/// One message in transit: the topic it was published on and its text.
pub struct SSEEvent {
    pub topic: String,
    pub text: String,
}

/// Subscribe the handle `addr` to `topic`.
pub struct Connect {
    pub topic: String,
    pub addr: u64,
}

/// Publish `text` to every subscriber of `topic`.
pub struct Publish {
    pub topic: String,
    pub text: String,
}

/// Remove the handle `addr` from every topic.
pub struct Disconnect {
    pub addr: u64,
}

/// Switch on the periodic synthetic events.
pub struct StartDummySender;

/// The form of a post: the text to publish.
pub struct PostMessage {
    pub text: String,
}

impl PostMessage {
    /// The publish request that posting this form to `topic` makes.
    pub fn into_publish(self, topic: String) -> (r: Publish)
        ensures
            r.topic@ == topic@,
            r.text@ == self.text@,
    {
        Publish { topic, text: self.text }
    }
}

/// A request to the broker.
pub enum BrokerMessage {
    Connect(Connect),
    Disconnect(Disconnect),
    Publish(Publish),
    StartDummySender(StartDummySender),
}

/// One event to hand to the subscriber `to`.
pub struct Delivery {
    pub to: u64,
    pub event: SSEEvent,
}

/// What came of one attempted delivery.
#[derive(Clone, Copy, Debug, PartialEq, Eq, Structural)]
pub enum SendOutcome {
    /// The event was handed to the subscriber's inbox.
    Delivered,
    /// The inbox was full; the event was dropped and the subscriber stays.
    Full,
    /// The inbox is closed for good; the subscriber is evicted.
    Closed,
}

/// The outcome of the delivery to `to`.
#[derive(Clone, Copy, Debug, PartialEq, Eq, Structural)]
pub struct SendReport {
    pub to: u64,
    pub outcome: SendOutcome,
}

/// The subscribers of `topic` in `reg`: none where the topic is absent.
pub open spec fn recipients(reg: Map<Seq<char>, Set<u64>>, topic: Seq<char>) -> Set<u64> {
    if reg.contains_key(topic) {
        reg[topic]
    } else {
        Set::empty()
    }
}

/// No topic of `reg` has an empty set of subscribers.
pub open spec fn no_empty_topics(reg: Map<Seq<char>, Set<u64>>) -> bool {
    forall|k: Seq<char>| #[trigger] reg.contains_key(k) ==> reg[k] != Set::<u64>::empty()
}

/// `reg` after `h` subscribes to `topic`; the topic is created if absent.
pub open spec fn with_subscriber(reg: Map<Seq<char>, Set<u64>>, topic: Seq<char>, h: u64) -> Map<
    Seq<char>,
    Set<u64>,
> {
    reg.insert(topic, recipients(reg, topic).insert(h))
}

/// `reg` after every handle of `hs` leaves every topic; topics left without
/// subscribers are gone.
pub open spec fn without_subscribers(reg: Map<Seq<char>, Set<u64>>, hs: Set<u64>) -> Map<
    Seq<char>,
    Set<u64>,
> {
    Map::new(
        |k: Seq<char>| reg.contains_key(k) && reg[k].difference(hs) != Set::<u64>::empty(),
        |k: Seq<char>| reg[k].difference(hs),
    )
}

/// `reg` after the handle `h` leaves every topic.
pub open spec fn without_subscriber(reg: Map<Seq<char>, Set<u64>>, h: u64) -> Map<
    Seq<char>,
    Set<u64>,
> {
    without_subscribers(reg, set![h])
}

/// `h` is subscribed to some topic of `reg`.
pub open spec fn subscribed(reg: Map<Seq<char>, Set<u64>>, h: u64) -> bool {
    exists|k: Seq<char>| #[trigger] reg.contains_key(k) && reg[k].contains(h)
}

/// The handles that a delivery of `ds` goes to, in order.
pub open spec fn targets(ds: Seq<Delivery>) -> Seq<u64> {
    ds.map_values(|d: Delivery| d.to)
}

/// The handles that `reports` found closed.
pub open spec fn closed_handles(reports: Seq<SendReport>) -> Set<u64> {
    Set::new(
        |h: u64|
            exists|i: int|
                0 <= i < reports.len() && #[trigger] reports[i].to == h && reports[i].outcome
                    == SendOutcome::Closed,
    )
}

struct TopicEntry {
    name: String,
    subscribers: Vec<u64>,
}

/// The broker: the one owner of the registry.
pub struct EventSource {
    topics: Vec<TopicEntry>,
    counter: u64,
    heartbeat: bool,
    registry: Ghost<Map<Seq<char>, Set<u64>>>,
}

impl View for EventSource {
    type V = Map<Seq<char>, Set<u64>>;

    closed spec fn view(&self) -> Map<Seq<char>, Set<u64>> {
        self.registry@
    }
}

fn contains_handle(v: &Vec<u64>, h: u64) -> (r: bool)
    ensures
        r == v@.contains(h),
{
    let mut i: usize = 0;
    while i < v.len()
        invariant
            i <= v.len(),
            forall|j: int| 0 <= j < i ==> v@[j] != h,
        decreases v.len() - i,
    {
        if v[i] == h {
            return true;
        }
        i += 1;
    }
    false
}

fn retain_others(subs: &Vec<u64>, hs: &Vec<u64>) -> (r: Vec<u64>)
    requires
        subs@.no_duplicates(),
    ensures
        r@.no_duplicates(),
        forall|x: u64| #[trigger] r@.contains(x) <==> (subs@.contains(x) && !hs@.contains(x)),
{
    let mut r: Vec<u64> = Vec::new();
    let mut i: usize = 0;
    while i < subs.len()
        invariant
            i <= subs.len(),
            subs@.no_duplicates(),
            r@.no_duplicates(),
            forall|x: u64|
                #[trigger] r@.contains(x) <==> (exists|m: int| 0 <= m < i && subs@[m] == x)
                    && !hs@.contains(x),
        decreases subs.len() - i,
    {
        let x = subs[i];
        if !contains_handle(hs, x) {
            proof {
                assert forall|m: int| 0 <= m < r.len() implies r@[m] != x by {
                    assert(r@.contains(r@[m]));
                }
            }
            let ghost before = r@;
            r.push(x);
            proof {
                assert forall|y: u64| #[trigger] r@.contains(y) <==> (exists|m: int|
                    0 <= m < i + 1 && subs@[m] == y) && !hs@.contains(y) by {
                    if r@.contains(y) {
                        let k = choose|k: int| 0 <= k < r.len() && r@[k] == y;
                        if k < before.len() {
                            assert(before.contains(y));
                        }
                    }
                    if (exists|m: int| 0 <= m < i + 1 && subs@[m] == y) && !hs@.contains(y) {
                        let m = choose|m: int| 0 <= m < i + 1 && subs@[m] == y;
                        if m < i {
                            assert(before.contains(y));
                            let k = choose|k: int| 0 <= k < before.len() && before[k] == y;
                            assert(r@[k] == y);
                        } else {
                            assert(r@[before.len() as int] == y);
                        }
                    }
                }
            }
        } else {
            proof {
                assert forall|y: u64| #[trigger] r@.contains(y) <==> (exists|m: int|
                    0 <= m < i + 1 && subs@[m] == y) && !hs@.contains(y) by {
                    if (exists|m: int| 0 <= m < i + 1 && subs@[m] == y) && !hs@.contains(y) {
                        let m = choose|m: int| 0 <= m < i + 1 && subs@[m] == y;
                        assert(m < i);
                    }
                }
            }
        }
        i += 1;
    }
    proof {
        assert forall|x: u64| #[trigger] r@.contains(x) <==> (subs@.contains(x) && !hs@.contains(x)) by {
            if subs@.contains(x) {
                let m = choose|m: int| 0 <= m < subs.len() && subs@[m] == x;
                assert(0 <= m < i && subs@[m] == x);
            }
        }
    }
    r
}

/// `d` is the heartbeat of the topic at position `i` of `order`, numbered
/// from `base`, to one of that topic's subscribers in `reg`.
pub open spec fn heartbeat_delivery(
    d: Delivery,
    order: Seq<Seq<char>>,
    reg: Map<Seq<char>, Set<u64>>,
    base: nat,
    i: int,
) -> bool {
    &&& 0 <= i < order.len()
    &&& d.event.topic@ == order[i]
    &&& d.event.text@ == heartbeat_text(base + i as nat + 1)
    &&& reg[order[i]].contains(d.to)
}

/// `d` is the heartbeat of one of the first `n` topics of `order`.
pub open spec fn heartbeat_among(
    d: Delivery,
    order: Seq<Seq<char>>,
    reg: Map<Seq<char>, Set<u64>>,
    base: nat,
    n: int,
) -> bool {
    exists|j: int| j < n && heartbeat_delivery(d, order, reg, base, j)
}

/// Each delivery of `r` is the heartbeat of one of the first `n` topics of
/// `order`.
pub open spec fn heartbeat_sound(
    r: Seq<Delivery>,
    order: Seq<Seq<char>>,
    reg: Map<Seq<char>, Set<u64>>,
    base: nat,
    n: int,
) -> bool {
    forall|k: int| 0 <= k < r.len() ==> heartbeat_among(#[trigger] r[k], order, reg, base, n)
}

/// Each subscriber of each of the first `n` topics of `order` gets that
/// topic's heartbeat in `r`.
pub open spec fn heartbeat_complete(
    r: Seq<Delivery>,
    order: Seq<Seq<char>>,
    reg: Map<Seq<char>, Set<u64>>,
    base: nat,
    n: int,
) -> bool {
    forall|j: int, h: u64|
        0 <= j < n && #[trigger] reg[order[j]].contains(h) ==> exists|k: int|
            0 <= k < r.len() && #[trigger] r[k].to == h && heartbeat_delivery(r[k], order, reg, base, j)
}

/// No two deliveries of `r` go to the same handle on the same topic.
pub open spec fn once_per_topic(r: Seq<Delivery>) -> bool {
    forall|a: int, b: int|
        #![trigger r[a], r[b]]
        0 <= a < b < r.len() ==> r[a].to != r[b].to || r[a].event.topic@ != r[b].event.topic@
}

/// The heartbeats of `r` come topic by topic, in the order of `order`.
pub open spec fn in_topic_order(
    r: Seq<Delivery>,
    order: Seq<Seq<char>>,
    reg: Map<Seq<char>, Set<u64>>,
    base: nat,
) -> bool {
    forall|a: int, b: int, ja: int, jb: int|
        #![trigger heartbeat_delivery(r[a], order, reg, base, ja), heartbeat_delivery(r[b], order, reg, base, jb)]
        0 <= a < b < r.len() && heartbeat_delivery(r[a], order, reg, base, ja) && heartbeat_delivery(
            r[b],
            order,
            reg,
            base,
            jb,
        ) ==> ja <= jb
}

proof fn lemma_heartbeat_step(
    before: Seq<Delivery>,
    ds: Seq<Delivery>,
    order: Seq<Seq<char>>,
    reg: Map<Seq<char>, Set<u64>>,
    base: nat,
    i: int,
)
    requires
        order.no_duplicates(),
        0 <= i < order.len(),
        heartbeat_sound(before, order, reg, base, i),
        once_per_topic(before),
        in_topic_order(before, order, reg, base),
        targets(ds).no_duplicates(),
        forall|m: int| 0 <= m < ds.len() ==> (#[trigger] ds[m]).event.topic@ == order[i],
    ensures
        once_per_topic(before + ds),
        in_topic_order(before + ds, order, reg, base),
{
    let r = before + ds;
    let n = before.len() as int;
    assert forall|a: int, b: int|
        #![trigger r[a], r[b]]
        0 <= a < b < r.len() implies r[a].to != r[b].to || r[a].event.topic@ != r[b].event.topic@ by {
        if b >= n {
            assert(r[b] == ds[b - n]);
            if a < n {
                assert(r[a] == before[a]);
                assert(heartbeat_among(before[a], order, reg, base, i));
                let j = choose|j: int| j < i && heartbeat_delivery(before[a], order, reg, base, j);
                assert(order[j] != order[i]);
            } else {
                assert(r[a] == ds[a - n]);
                assert(targets(ds)[a - n] != targets(ds)[b - n]);
            }
        } else {
            assert(r[a] == before[a]);
            assert(r[b] == before[b]);
        }
    }
    assert forall|a: int, b: int, ja: int, jb: int|
        #![trigger heartbeat_delivery(r[a], order, reg, base, ja), heartbeat_delivery(r[b], order, reg, base, jb)]
        0 <= a < b < r.len() && heartbeat_delivery(r[a], order, reg, base, ja) && heartbeat_delivery(
            r[b],
            order,
            reg,
            base,
            jb,
        ) implies ja <= jb by {
        if b >= n {
            assert(r[b] == ds[b - n]);
            assert(order[jb] == order[i]);
            assert(jb == i);
            if a < n {
                assert(r[a] == before[a]);
                assert(heartbeat_among(before[a], order, reg, base, i));
                let j = choose|j: int| j < i && heartbeat_delivery(before[a], order, reg, base, j);
                assert(order[j] == order[ja]);
                assert(ja == j);
            } else {
                assert(r[a] == ds[a - n]);
                assert(order[ja] == order[i]);
            }
        } else {
            assert(r[a] == before[a]);
            assert(r[b] == before[b]);
        }
    }
}

/// `e` is a topic of `reg` with at least one subscriber, listed once each,
/// and exactly the subscribers that `reg` gives it.
spec fn entry_matches(e: TopicEntry, reg: Map<Seq<char>, Set<u64>>) -> bool {
    &&& reg.contains_key(e.name@)
    &&& e.subscribers.len() > 0
    &&& e.subscribers@.no_duplicates()
    &&& forall|x: u64| #[trigger] reg[e.name@].contains(x) <==> e.subscribers@.contains(x)
}

spec fn names_distinct(ts: Seq<TopicEntry>) -> bool {
    forall|i: int, j: int| 0 <= i < j < ts.len() ==> #[trigger] ts[i].name@ != #[trigger] ts[j].name@
}

spec fn covers(ts: Seq<TopicEntry>, reg: Map<Seq<char>, Set<u64>>) -> bool {
    forall|k: Seq<char>|
        #[trigger] reg.contains_key(k) ==> exists|i: int| 0 <= i < ts.len() && #[trigger] ts[i].name@ == k
}

spec fn entries_match(ts: Seq<TopicEntry>, reg: Map<Seq<char>, Set<u64>>) -> bool {
    forall|i: int| 0 <= i < ts.len() ==> entry_matches(#[trigger] ts[i], reg)
}

proof fn lemma_filtered_entry(
    reg: Map<Seq<char>, Set<u64>>,
    hs: Set<u64>,
    e: TopicEntry,
    subs: Seq<u64>,
)
    requires
        entry_matches(e, reg),
        forall|x: u64| #[trigger] subs.contains(x) <==> (e.subscribers@.contains(x) && !hs.contains(x)),
    ensures
        without_subscribers(reg, hs).contains_key(e.name@) <==> subs.len() > 0,
        subs.len() > 0 ==> forall|x: u64|
            #[trigger] without_subscribers(reg, hs)[e.name@].contains(x) <==> subs.contains(x),
{
    let d = reg[e.name@].difference(hs);
    assert forall|x: u64| #[trigger] d.contains(x) <==> subs.contains(x) by {
        assert(reg[e.name@].contains(x) <==> e.subscribers@.contains(x));
    }
    if subs.len() > 0 {
        assert(subs.contains(subs[0]));
        assert(d.contains(subs[0]));
    } else {
        assert(d =~= Set::<u64>::empty());
    }
}

impl Default for EventSource {
    /// An empty registry, heartbeats off.
    fn default() -> (r: EventSource)
        ensures
            r.wf(),
            r@ == Map::<Seq<char>, Set<u64>>::empty(),
            r.sequence() == 0,
            !r.heartbeat_on(),
    {
        EventSource {
            topics: Vec::new(),
            counter: 0,
            heartbeat: false,
            registry: Ghost(Map::empty()),
        }
    }
}

impl EventSource {
    /// The registry's representation agrees with its model, topic names are
    /// unique, and every topic has at least one subscriber.
    pub closed spec fn wf(&self) -> bool {
        &&& names_distinct(self.topics@)
        &&& entries_match(self.topics@, self.registry@)
        &&& covers(self.topics@, self.registry@)
    }

    /// The topics in the order in which heartbeats visit them.
    pub closed spec fn topic_order(&self) -> Seq<Seq<char>> {
        self.topics@.map_values(|e: TopicEntry| e.name@)
    }

    /// The sequence number of the last heartbeat event.
    pub closed spec fn sequence(&self) -> nat {
        self.counter as nat
    }

    /// Whether heartbeats have been switched on.
    pub closed spec fn heartbeat_on(&self) -> bool {
        self.heartbeat
    }

    fn find_topic(&self, topic: &String) -> (r: Option<usize>)
        requires
            self.wf(),
        ensures
            match r {
                Some(i) => i < self.topics.len() && self.topics[i as int].name@ == topic@,
                None => !self@.contains_key(topic@),
            },
    {
        let mut i: usize = 0;
        while i < self.topics.len()
            invariant
                self.wf(),
                i <= self.topics.len(),
                forall|j: int| 0 <= j < i ==> self.topics[j].name@ != topic@,
            decreases self.topics.len() - i,
        {
            if self.topics[i].name == *topic {
                return Some(i);
            }
            i += 1;
        }
        None
    }

    /// Whether `topic` has subscribers.
    pub fn has_topic(&self, topic: &String) -> (r: bool)
        requires
            self.wf(),
        ensures
            r == self@.contains_key(topic@),
    {
        match self.find_topic(topic) {
            Some(i) => {
                assert(entry_matches(self.topics@[i as int], self@));
                true
            },
            None => false,
        }
    }

    /// The number of topics with subscribers.
    pub fn topic_count(&self) -> (r: usize)
        ensures
            r == self.topic_order().len(),
    {
        self.topics.len()
    }

    /// Subscribes `msg.addr` to `msg.topic`, creating the topic if absent.
    /// A handle already subscribed there stays subscribed once.
    pub fn connect(&mut self, msg: Connect)
        requires
            old(self).wf(),
        ensures
            final(self).wf(),
            final(self)@ == with_subscriber(old(self)@, msg.topic@, msg.addr),
            final(self).sequence() == old(self).sequence(),
            final(self).heartbeat_on() == old(self).heartbeat_on(),
    {
        let ghost reg = self.registry@;
        let ghost t = msg.topic@;
        let ghost h = msg.addr;
        let ghost ts = self.topics@;
        match self.find_topic(&msg.topic) {
            Some(i) => {
                let present = contains_handle(&self.topics[i].subscribers, msg.addr);
                if !present {
                    self.topics[i].subscribers.push(msg.addr);
                }
                let ghost reg2 = reg.insert(t, reg[t].insert(h));
                self.registry = Ghost(reg2);
                proof {
                    assert(entry_matches(ts[i as int], reg));
                    let os = ts[i as int].subscribers@;
                    let ns = self.topics[i as int].subscribers@;
                    if !present {
                        assert(ns == os.push(h));
                        assert forall|a: int, b: int| 0 <= a < b < ns.len() implies ns[a] != ns[b] by {
                            assert(os[a] == ns[a]);
                            if b < os.len() {
                                assert(os[b] == ns[b]);
                            }
                        }
                        assert forall|x: u64| #[trigger] reg2[t].contains(x) <==> ns.contains(x) by {
                            if ns.contains(x) && x != h {
                                let m = choose|m: int| 0 <= m < ns.len() && ns[m] == x;
                                assert(os[m] == x);
                            }
                            if os.contains(x) {
                                let m = choose|m: int| 0 <= m < os.len() && os[m] == x;
                                assert(ns[m] == x);
                            }
                            if x == h {
                                assert(ns[os.len() as int] == x);
                            }
                        }
                    } else {
                        assert forall|x: u64| #[trigger] reg2[t].contains(x) <==> ns.contains(x) by {
                            assert(reg[t].contains(x) <==> os.contains(x));
                        }
                    }
                    assert(entry_matches(self.topics[i as int], reg2));
                    assert forall|j: int| 0 <= j < self.topics.len() implies entry_matches(
                        #[trigger] self.topics@[j],
                        reg2,
                    ) by {
                        if j != i {
                            assert(ts[j] == self.topics@[j]);
                            assert(entry_matches(ts[j], reg));
                            assert(ts[j].name@ != t);
                        }
                    }
                    assert forall|a: int, b: int|
                        0 <= a < b < self.topics.len() implies #[trigger] self.topics@[a].name@
                        != #[trigger] self.topics@[b].name@ by {
                        assert(ts[a].name@ == self.topics@[a].name@);
                        assert(ts[b].name@ == self.topics@[b].name@);
                    }
                    assert forall|k: Seq<char>| #[trigger] reg2.contains_key(k) implies exists|j: int|
                        0 <= j < self.topics.len() && #[trigger] self.topics@[j].name@ == k by {
                        if k != t {
                            let j = choose|j: int| 0 <= j < ts.len() && #[trigger] ts[j].name@ == k;
                            assert(self.topics@[j].name@ == k);
                        } else {
                            assert(self.topics@[i as int].name@ == k);
                        }
                    }
                }
            },
            None => {
                let mut subs: Vec<u64> = Vec::new();
                subs.push(msg.addr);
                self.topics.push(TopicEntry { name: msg.topic, subscribers: subs });
                let ghost reg2 = reg.insert(t, set![h]);
                self.registry = Ghost(reg2);
                proof {
                    let n = ts.len() as int;
                    let ns = self.topics@[n].subscribers@;
                    assert(ns =~= seq![h]);
                    assert forall|x: u64| #[trigger] reg2[t].contains(x) <==> ns.contains(x) by {
                        if ns.contains(x) {
                            assert(ns[0] == x);
                        }
                        if x == h {
                            assert(ns[0] == x);
                        }
                    }
                    assert(entry_matches(self.topics@[n], reg2));
                    assert forall|j: int| 0 <= j < self.topics.len() implies entry_matches(
                        #[trigger] self.topics@[j],
                        reg2,
                    ) by {
                        if j != n {
                            assert(ts[j] == self.topics@[j]);
                            assert(entry_matches(ts[j], reg));
                        }
                    }
                    assert forall|a: int, b: int|
                        0 <= a < b < self.topics.len() implies #[trigger] self.topics@[a].name@
                        != #[trigger] self.topics@[b].name@ by {
                        assert(ts[a] == self.topics@[a]);
                        assert(entry_matches(ts[a], reg));
                        if b < n {
                            assert(ts[b] == self.topics@[b]);
                        }
                    }
                    assert forall|k: Seq<char>| #[trigger] reg2.contains_key(k) implies exists|j: int|
                        0 <= j < self.topics.len() && #[trigger] self.topics@[j].name@ == k by {
                        if k != t {
                            let j = choose|j: int| 0 <= j < ts.len() && #[trigger] ts[j].name@ == k;
                            assert(self.topics@[j] == ts[j]);
                        } else {
                            assert(self.topics@[n].name@ == k);
                        }
                    }
                }
            },
        }
    }

    /// The deliveries of `msg`: one for each subscriber of its topic, none
    /// where the topic has none.
    pub fn publish(&self, msg: Publish) -> (r: Vec<Delivery>)
        requires
            self.wf(),
        ensures
            targets(r@).no_duplicates(),
            targets(r@).to_set() == recipients(self@, msg.topic@),
            !self@.contains_key(msg.topic@) ==> r@.len() == 0,
            forall|j: int|
                0 <= j < r.len() ==> (#[trigger] r[j]).event.topic@ == msg.topic@
                    && r[j].event.text@ == msg.text@,
    {
        let mut r: Vec<Delivery> = Vec::new();
        match self.find_topic(&msg.topic) {
            None => {
                assert(targets(r@).to_set() =~= recipients(self@, msg.topic@));
            },
            Some(i) => {
                let subs = &self.topics[i].subscribers;
                let mut j: usize = 0;
                while j < subs.len()
                    invariant
                        j <= subs.len(),
                        targets(r@) =~= subs@.subrange(0, j as int),
                        forall|k: int|
                            0 <= k < r.len() ==> (#[trigger] r[k]).event.topic@ == msg.topic@
                                && r[k].event.text@ == msg.text@,
                    decreases subs.len() - j,
                {
                    let ev = SSEEvent { topic: msg.topic.clone(), text: msg.text.clone() };
                    let ghost before = r@;
                    r.push(Delivery { to: subs[j], event: ev });
                    proof {
                        assert(targets(r@) =~= targets(before).push(subs@[j as int]));
                        assert(subs@.subrange(0, j + 1) =~= subs@.subrange(0, j as int).push(
                            subs@[j as int],
                        ));
                    }
                    j += 1;
                }
                proof {
                    assert(targets(r@) =~= subs@);
                    assert(self.topics[i as int].subscribers.len() > 0);
                    assert forall|x: u64| targets(r@).to_set().contains(x) <==> recipients(
                        self@,
                        msg.topic@,
                    ).contains(x) by {
                        assert(self.registry@.contains_key(self.topics[i as int].name@));
                        assert(self.registry@[self.topics[i as int].name@].contains(x)
                            <==> self.topics[i as int].subscribers@.contains(x));
                    }
                    assert(targets(r@).to_set() =~= recipients(self@, msg.topic@));
                }
            },
        }
        r
    }

    #[verifier::rlimit(40)]
    fn remove_handles(&mut self, hs: &Vec<u64>)
        requires
            old(self).wf(),
        ensures
            final(self).wf(),
            final(self)@ == without_subscribers(old(self)@, hs@.to_set()),
            final(self).sequence() == old(self).sequence(),
            final(self).heartbeat_on() == old(self).heartbeat_on(),
    {
        let ghost reg = self.registry@;
        let ghost hset = hs@.to_set();
        let ghost target = without_subscribers(reg, hset);
        let mut kept: Vec<TopicEntry> = Vec::new();
        let mut i: usize = 0;
        while i < self.topics.len()
            invariant
                self.wf(),
                self.registry@ == reg,
                hset == hs@.to_set(),
                target == without_subscribers(reg, hset),
                i <= self.topics.len(),
                names_distinct(kept@),
                entries_match(kept@, target),
                forall|j: int|
                    0 <= j < kept.len() ==> exists|m: int|
                        0 <= m < i && #[trigger] self.topics@[m].name@ == #[trigger] kept@[j].name@,
                forall|m: int|
                    0 <= m < i && target.contains_key(#[trigger] self.topics@[m].name@) ==> exists|
                        j: int,
                    | 0 <= j < kept.len() && #[trigger] kept@[j].name@ == self.topics@[m].name@,
            decreases self.topics.len() - i,
        {
            let ghost e = self.topics@[i as int];
            assert(entry_matches(e, reg));
            let subs = retain_others(&self.topics[i].subscribers, hs);
            proof {
                assert forall|x: u64| #[trigger] subs@.contains(x) <==> (e.subscribers@.contains(x)
                    && !hset.contains(x)) by {
                    assert(hset.contains(x) <==> hs@.contains(x));
                }
                lemma_filtered_entry(reg, hset, e, subs@);
            }
            if subs.len() > 0 {
                let ghost before = kept@;
                kept.push(TopicEntry { name: self.topics[i].name.clone(), subscribers: subs });
                proof {
                    let n = before.len() as int;
                    assert(kept@[n].name@ == e.name@);
                    assert(entry_matches(kept@[n], target));
                    assert forall|j: int| 0 <= j < kept.len() implies entry_matches(
                        #[trigger] kept@[j],
                        target,
                    ) by {
                        if j < n {
                            assert(before[j] == kept@[j]);
                        }
                    }
                    assert forall|j: int|
                        0 <= j < kept.len() implies exists|m: int|
                        0 <= m < i + 1 && #[trigger] self.topics@[m].name@ == #[trigger] kept@[j].name@ by {
                        if j < n {
                            assert(before[j] == kept@[j]);
                            let m = choose|m: int|
                                0 <= m < i && #[trigger] self.topics@[m].name@ == before[j].name@;
                            assert(self.topics@[m].name@ == kept@[j].name@);
                        } else {
                            assert(self.topics@[i as int].name@ == kept@[j].name@);
                        }
                    }
                    assert forall|a: int, b: int|
                        0 <= a < b < kept.len() implies #[trigger] kept@[a].name@
                        != #[trigger] kept@[b].name@ by {
                        assert(before[a] == kept@[a]);
                        if b == n {
                            let m = choose|m: int|
                                0 <= m < i && #[trigger] self.topics@[m].name@ == before[a].name@;
                            assert(self.topics@[m].name@ != self.topics@[i as int].name@);
                        } else {
                            assert(before[b] == kept@[b]);
                        }
                    }
                    assert forall|m: int|
                        0 <= m < i + 1 && target.contains_key(
                            #[trigger] self.topics@[m].name@,
                        ) implies exists|j: int|
                        0 <= j < kept.len() && #[trigger] kept@[j].name@ == self.topics@[m].name@ by {
                        if m < i {
                            let j = choose|j: int|
                                0 <= j < n && #[trigger] before[j].name@ == self.topics@[m].name@;
                            assert(kept@[j] == before[j]);
                        } else {
                            assert(kept@[n].name@ == self.topics@[m].name@);
                        }
                    }
                }
            }
            i += 1;
        }
        proof {
            assert forall|k: Seq<char>| #[trigger] target.contains_key(k) implies exists|j: int|
                0 <= j < kept.len() && #[trigger] kept@[j].name@ == k by {
                assert(reg.contains_key(k));
                let m = choose|m: int| 0 <= m < self.topics.len() && #[trigger] self.topics@[m].name@ == k;
                assert(target.contains_key(self.topics@[m].name@));
            }
        }
        self.topics = kept;
        self.registry = Ghost(target);
    }

    /// Removes `msg.addr` from every topic, and drops each topic left without
    /// subscribers. A handle that is subscribed nowhere changes nothing.
    pub fn disconnect(&mut self, msg: Disconnect)
        requires
            old(self).wf(),
        ensures
            final(self).wf(),
            final(self)@ == without_subscriber(old(self)@, msg.addr),
            !subscribed(old(self)@, msg.addr) ==> final(self)@ == old(self)@,
            final(self).sequence() == old(self).sequence(),
            final(self).heartbeat_on() == old(self).heartbeat_on(),
    {
        proof {
            lemma_no_empty_topics(self);
            if !subscribed(self@, msg.addr) {
                lemma_disconnect_unknown(self@, msg.addr);
            }
        }
        let mut hs: Vec<u64> = Vec::new();
        hs.push(msg.addr);
        self.remove_handles(&hs);
        proof {
            assert(hs@.to_set() =~= set![msg.addr]) by {
                assert(hs@[0] == msg.addr);
            }
        }
    }

    /// Takes back the outcomes of attempted deliveries: every handle whose
    /// inbox was found closed leaves the registry; a full inbox keeps its
    /// subscriber.
    pub fn record_send_results(&mut self, reports: &Vec<SendReport>)
        requires
            old(self).wf(),
        ensures
            final(self).wf(),
            final(self)@ == without_subscribers(old(self)@, closed_handles(reports@)),
            final(self).sequence() == old(self).sequence(),
            final(self).heartbeat_on() == old(self).heartbeat_on(),
    {
        let mut closed: Vec<u64> = Vec::new();
        let mut i: usize = 0;
        while i < reports.len()
            invariant
                i <= reports.len(),
                forall|h: u64|
                    #[trigger] closed@.contains(h) <==> exists|m: int|
                        0 <= m < i && #[trigger] reports@[m].to == h && reports@[m].outcome
                            == SendOutcome::Closed,
            decreases reports.len() - i,
        {
            let rep = reports[i];
            let ghost before = closed@;
            if rep.outcome == SendOutcome::Closed {
                closed.push(rep.to);
                proof {
                    assert forall|h: u64| #[trigger] closed@.contains(h) <==> exists|m: int|
                        0 <= m < i + 1 && #[trigger] reports@[m].to == h && reports@[m].outcome
                            == SendOutcome::Closed by {
                        if closed@.contains(h) {
                            let k = choose|k: int| 0 <= k < closed.len() && closed@[k] == h;
                            if k < before.len() {
                                assert(before.contains(h));
                            } else {
                                assert(reports@[i as int].to == h);
                            }
                        }
                        if exists|m: int|
                            0 <= m < i + 1 && #[trigger] reports@[m].to == h && reports@[m].outcome
                                == SendOutcome::Closed {
                            let m = choose|m: int|
                                0 <= m < i + 1 && #[trigger] reports@[m].to == h && reports@[m].outcome
                                    == SendOutcome::Closed;
                            if m < i {
                                assert(before.contains(h));
                                let k = choose|k: int| 0 <= k < before.len() && before[k] == h;
                                assert(closed@[k] == h);
                            } else {
                                assert(closed@[before.len() as int] == h);
                            }
                        }
                    }
                }
            } else {
                proof {
                    assert forall|h: u64| #[trigger] closed@.contains(h) <==> exists|m: int|
                        0 <= m < i + 1 && #[trigger] reports@[m].to == h && reports@[m].outcome
                            == SendOutcome::Closed by {
                        if exists|m: int|
                            0 <= m < i + 1 && #[trigger] reports@[m].to == h && reports@[m].outcome
                                == SendOutcome::Closed {
                            let m = choose|m: int|
                                0 <= m < i + 1 && #[trigger] reports@[m].to == h && reports@[m].outcome
                                    == SendOutcome::Closed;
                            assert(m < i);
                        }
                    }
                }
            }
            i += 1;
        }
        self.remove_handles(&closed);
        proof {
            assert(closed@.to_set() =~= closed_handles(reports@));
        }
    }


    /// Switches on the periodic heartbeat events.
    pub fn start_dummy_sender(&mut self, msg: StartDummySender)
        requires
            old(self).wf(),
        ensures
            final(self).wf(),
            final(self)@ == old(self)@,
            final(self).topic_order() == old(self).topic_order(),
            final(self).sequence() == old(self).sequence(),
            final(self).heartbeat_on(),
    {
        self.heartbeat = true;
    }

    /// One heartbeat tick. While heartbeats are on, every topic in turn gets
    /// the next sequence number and an event `event <n>` that goes to each of
    /// its subscribers through `publish`. While they are off, or where the
    /// sequence numbers would run past `u64::MAX`, nothing happens.
    pub fn generate_data(&mut self) -> (r: Vec<Delivery>)
        requires
            old(self).wf(),
        ensures
            final(self).wf(),
            final(self)@ == old(self)@,
            final(self).topic_order() == old(self).topic_order(),
            final(self).heartbeat_on() == old(self).heartbeat_on(),
            ({
                let base = old(self).sequence();
                let order = old(self).topic_order();
                if old(self).heartbeat_on() && base + order.len() <= u64::MAX {
                    &&& final(self).sequence() == base + order.len()
                    &&& heartbeat_sound(r@, order, old(self)@, base, order.len() as int)
                    &&& heartbeat_complete(r@, order, old(self)@, base, order.len() as int)
                    &&& once_per_topic(r@)
                    &&& in_topic_order(r@, order, old(self)@, base)
                } else {
                    &&& final(self).sequence() == base
                    &&& r.len() == 0
                }
            }),
    {
        let mut r: Vec<Delivery> = Vec::new();
        if !self.heartbeat || self.counter > u64::MAX - self.topics.len() as u64 {
            return r;
        }
        let ghost base = self.counter as nat;
        let ghost order = self.topic_order();
        let ghost reg = self.registry@;
        proof {
            lemma_topic_order(self);
        }
        let mut i: usize = 0;
        while i < self.topics.len()
            invariant
                self.wf(),
                self.registry@ == reg,
                self.topic_order() == order,
                order.len() == self.topics.len(),
                self.heartbeat,
                base + order.len() <= u64::MAX,
                i <= self.topics.len(),
                self.counter == base + i,
                heartbeat_sound(r@, order, reg, base, i as int),
                heartbeat_complete(r@, order, reg, base, i as int),
                once_per_topic(r@),
                in_topic_order(r@, order, reg, base),
                order.no_duplicates(),
            decreases self.topics.len() - i,
        {
            self.counter = self.counter + 1;
            let text = heartbeat_event_text(self.counter);
            let name = self.topics[i].name.clone();
            let mut ds = self.publish(Publish { topic: name, text });
            let ghost before = r@;
            let ghost dsv = ds@;
            proof {
                assert(order[i as int] == self.topics@[i as int].name@);
                assert(entry_matches(self.topics@[i as int], reg));
            }
            r.append(&mut ds);
            proof {
                lemma_heartbeat_step(before, dsv, order, reg, base, i as int);
                let b = before.len() as int;
                let n: int = i + 1;
                let rs = r@;
                assert forall|k: int| 0 <= k < rs.len() implies heartbeat_among(
                    #[trigger] rs[k],
                    order,
                    reg,
                    base,
                    n,
                ) by {
                    if k < b {
                        assert(rs[k] == before[k]);
                        assert(heartbeat_among(before[k], order, reg, base, i as int));
                        let j = choose|j: int| j < i && heartbeat_delivery(before[k], order, reg, base, j);
                        assert(heartbeat_delivery(rs[k], order, reg, base, j));
                    } else {
                        let d = dsv[k - b];
                        assert(rs[k] == d);
                        assert(targets(dsv)[k - b] == d.to);
                        assert(targets(dsv).contains(d.to));
                        assert(targets(dsv).to_set().contains(d.to));
                        assert(heartbeat_delivery(d, order, reg, base, i as int));
                    }
                }
                assert forall|j: int, h: u64|
                    0 <= j < i + 1 && #[trigger] reg[order[j]].contains(h) implies exists|k: int|
                    0 <= k < r.len() && #[trigger] r@[k].to == h && heartbeat_delivery(
                        r@[k],
                        order,
                        reg,
                        base,
                        j,
                    ) by {
                    if j < i {
                        let k = choose|k: int|
                            0 <= k < before.len() && #[trigger] before[k].to == h
                                && heartbeat_delivery(before[k], order, reg, base, j);
                        assert(r@[k] == before[k]);
                    } else {
                        assert(targets(dsv).to_set().contains(h));
                        let m = choose|m: int| 0 <= m < targets(dsv).len() && targets(dsv)[m] == h;
                        assert(r@[b + m] == dsv[m]);
                        assert(heartbeat_delivery(r@[b + m], order, reg, base, j));
                    }
                }
            }
            i += 1;
        }
        r
    }


    /// Serves one request, in the order requests arrive: a connect or a
    /// disconnect changes the registry, a publish returns its deliveries,
    /// and a start switches heartbeats on. Whatever the request, no topic is
    /// left without subscribers.
    pub fn handle(&mut self, msg: BrokerMessage) -> (r: Vec<Delivery>)
        requires
            old(self).wf(),
        ensures
            final(self).wf(),
            no_empty_topics(final(self)@),
            final(self).sequence() == old(self).sequence(),
            match msg {
                BrokerMessage::Connect(c) => {
                    &&& final(self)@ == with_subscriber(old(self)@, c.topic@, c.addr)
                    &&& final(self).heartbeat_on() == old(self).heartbeat_on()
                    &&& r@.len() == 0
                },
                BrokerMessage::Disconnect(d) => {
                    &&& final(self)@ == without_subscriber(old(self)@, d.addr)
                    &&& !subscribed(old(self)@, d.addr) ==> final(self)@ == old(self)@
                    &&& final(self).heartbeat_on() == old(self).heartbeat_on()
                    &&& r@.len() == 0
                },
                BrokerMessage::Publish(p) => {
                    &&& final(self)@ == old(self)@
                    &&& final(self).topic_order() == old(self).topic_order()
                    &&& final(self).heartbeat_on() == old(self).heartbeat_on()
                    &&& targets(r@).no_duplicates()
                    &&& targets(r@).to_set() == recipients(old(self)@, p.topic@)
                    &&& !old(self)@.contains_key(p.topic@) ==> r@.len() == 0
                    &&& forall|j: int|
                        0 <= j < r.len() ==> (#[trigger] r[j]).event.topic@ == p.topic@
                            && r[j].event.text@ == p.text@
                },
                BrokerMessage::StartDummySender(_) => {
                    &&& final(self)@ == old(self)@
                    &&& final(self).topic_order() == old(self).topic_order()
                    &&& final(self).heartbeat_on()
                    &&& r@.len() == 0
                },
            },
    {
        let r = match msg {
            BrokerMessage::Connect(c) => {
                self.connect(c);
                Vec::new()
            },
            BrokerMessage::Disconnect(d) => {
                self.disconnect(d);
                Vec::new()
            },
            BrokerMessage::Publish(p) => self.publish(p),
            BrokerMessage::StartDummySender(m) => {
                self.start_dummy_sender(m);
                Vec::new()
            },
        };
        proof {
            lemma_no_empty_topics(self);
        }
        r
    }

}

/// `reg` after each handle of `hs` in turn subscribes to `topic`.
pub open spec fn with_subscribers(reg: Map<Seq<char>, Set<u64>>, topic: Seq<char>, hs: Seq<u64>) -> Map<
    Seq<char>,
    Set<u64>,
>
    decreases hs.len(),
{
    if hs.len() == 0 {
        reg
    } else {
        with_subscriber(with_subscribers(reg, topic, hs.drop_last()), topic, hs.last())
    }
}

/// A well-formed broker never holds a topic without subscribers.
pub proof fn lemma_no_empty_topics(es: &EventSource)
    requires
        es.wf(),
    ensures
        no_empty_topics(es@),
{
    assert forall|k: Seq<char>| #[trigger] es@.contains_key(k) implies es@[k] != Set::<u64>::empty() by {
        let i = choose|i: int| 0 <= i < es.topics.len() && #[trigger] es.topics@[i].name@ == k;
        let e = es.topics@[i];
        assert(entry_matches(e, es@));
        assert(e.subscribers@.contains(e.subscribers@[0]));
        assert(es@[k].contains(e.subscribers@[0]));
    }
}

/// Disconnecting a handle that is subscribed nowhere leaves the registry as
/// it was.
pub proof fn lemma_disconnect_unknown(reg: Map<Seq<char>, Set<u64>>, h: u64)
    requires
        no_empty_topics(reg),
        !subscribed(reg, h),
    ensures
        without_subscriber(reg, h) == reg,
{
    let r = without_subscriber(reg, h);
    assert forall|k: Seq<char>| reg.contains_key(k) implies #[trigger] reg[k].difference(set![h]) == reg[k] by {
        assert(!reg[k].contains(h));
        assert(reg[k].difference(set![h]) =~= reg[k]);
    }
    assert(r =~= reg);
}

/// A handle that was subscribed nowhere, connected to a topic and then
/// disconnected, leaves the registry as it was before the connect.
pub proof fn lemma_connect_then_disconnect(reg: Map<Seq<char>, Set<u64>>, topic: Seq<char>, h: u64)
    requires
        no_empty_topics(reg),
        !subscribed(reg, h),
    ensures
        without_subscriber(with_subscriber(reg, topic, h), h) == reg,
{
    let c = with_subscriber(reg, topic, h);
    let r = without_subscriber(c, h);
    assert forall|k: Seq<char>| reg.contains_key(k) implies #[trigger] c[k].difference(set![h]) == reg[k] by {
        assert(!reg[k].contains(h));
        assert(c[k].difference(set![h]) =~= reg[k]);
    }
    if !reg.contains_key(topic) {
        assert(c[topic].difference(set![h]) =~= Set::<u64>::empty());
    }
    assert(r =~= reg);
}

proof fn lemma_with_subscribers(reg: Map<Seq<char>, Set<u64>>, topic: Seq<char>, hs: Seq<u64>)
    ensures
        forall|k: Seq<char>| k != topic ==> (#[trigger] with_subscribers(reg, topic, hs).contains_key(k)
            <==> reg.contains_key(k)),
        forall|k: Seq<char>|
            k != topic && reg.contains_key(k) ==> #[trigger] with_subscribers(reg, topic, hs)[k]
                == reg[k],
        hs.len() > 0 ==> with_subscribers(reg, topic, hs).contains_key(topic),
        recipients(with_subscribers(reg, topic, hs), topic) == recipients(reg, topic) + hs.to_set(),
    decreases hs.len(),
{
    if hs.len() == 0 {
        assert(recipients(reg, topic) + hs.to_set() =~= recipients(reg, topic));
    } else {
        let p = hs.drop_last();
        lemma_with_subscribers(reg, topic, p);
        assert forall|x: u64| #[trigger] hs.to_set().contains(x) <==> (p.to_set().contains(x) || x
            == hs.last()) by {
            if hs.contains(x) && x != hs.last() {
                let m = choose|m: int| 0 <= m < hs.len() && hs[m] == x;
                assert(p[m] == x);
            }
            if p.contains(x) {
                let m = choose|m: int| 0 <= m < p.len() && p[m] == x;
                assert(hs[m] == x);
            }
            if x == hs.last() {
                assert(hs[hs.len() - 1] == x);
            }
        }
        assert(recipients(with_subscribers(reg, topic, hs), topic) =~= recipients(reg, topic)
            + hs.to_set());
    }
}

/// Handles connected, in any order, to a topic that had no subscribers,
/// after which one of them disconnects: a publish to that topic then reaches
/// exactly the others.
pub proof fn lemma_connect_many_then_disconnect_one(
    reg: Map<Seq<char>, Set<u64>>,
    topic: Seq<char>,
    hs: Seq<u64>,
    leaving: u64,
)
    requires
        !reg.contains_key(topic),
        hs.contains(leaving),
    ensures
        recipients(without_subscriber(with_subscribers(reg, topic, hs), leaving), topic)
            == hs.to_set().remove(leaving),
{
    lemma_with_subscribers(reg, topic, hs);
    let c = with_subscribers(reg, topic, hs);
    let rest = hs.to_set().remove(leaving);
    assert(c[topic] =~= hs.to_set());
    assert(c[topic].difference(set![leaving]) =~= rest);
    if rest == Set::<u64>::empty() {
        assert(recipients(without_subscriber(c, leaving), topic) =~= rest);
    }
}

/// Heartbeats visit every topic of the registry exactly once.
pub proof fn lemma_topic_order(es: &EventSource)
    requires
        es.wf(),
    ensures
        es.topic_order().no_duplicates(),
        forall|k: Seq<char>| #[trigger] es.topic_order().contains(k) <==> es@.contains_key(k),
{
    let order = es.topic_order();
    assert forall|i: int| 0 <= i < order.len() implies #[trigger] order[i] == es.topics@[i].name@ by {}
    assert forall|a: int, b: int| 0 <= a < b < order.len() implies order[a] != order[b] by {
        assert(order[a] == es.topics@[a].name@);
        assert(order[b] == es.topics@[b].name@);
    }
    assert forall|k: Seq<char>| #[trigger] order.contains(k) <==> es@.contains_key(k) by {
        if order.contains(k) {
            let i = choose|i: int| 0 <= i < order.len() && order[i] == k;
            assert(entry_matches(es.topics@[i], es@));
        }
        if es@.contains_key(k) {
            let i = choose|i: int| 0 <= i < es.topics.len() && #[trigger] es.topics@[i].name@ == k;
            assert(order[i] == k);
        }
    }
}

} // verus!
