//! The travel graph: per station, its outgoing rail and fixed links and its
//! interchange time.
use vstd::prelude::*;
use vstd::multiset::Multiset;
use crate::stations::{StationId, StationList};
use crate::timetable::{ServiceId, Timetable, RailTime, Service, Stop, parse_24h, secs_until};
use crate::fixed_links;
use crate::fixed_links::FixedLinkKind;
use crate::dijkstras::{TimeDijkstras, settled, chains_ok, is_journey_to, search};

verus! {

/// Travel on `service` to `dst`, boarding at clock time `depart` and arriving
/// `time` seconds later.
#[derive(Debug, PartialEq, Eq, Structural, Clone, Copy)]
pub struct RailLink {
    pub dst: StationId,
    pub service: ServiceId,
    pub depart: RailTime,
    pub time: u32,
}

/// Travel to `dst` taking `time` seconds whatever the clock.
#[derive(Debug, PartialEq, Eq, Structural, Clone, Copy)]
pub struct FixedLink {
    pub dst: StationId,
    pub time: u32,
    pub kind: FixedLinkKind,
}

/// An outgoing link of a station; `Dummy` marks the start of a journey.
#[derive(Debug, PartialEq, Eq, Structural, Clone, Copy)]
pub enum Link {
    Rail(RailLink),
    Fixed(FixedLink),
    Dummy,
}

/// The service of a link, where it is a rail link.
pub open spec fn link_service(l: Link) -> Option<ServiceId> {
    match l {
        Link::Rail(r) => Some(r.service),
        _ => None,
    }
}

impl Link {
    /// A rail link departing at the `HHMM` time `depart`.
    pub fn simple_rail(dst: StationId, service: ServiceId, depart: &str, time: u32) -> (r: Self)
        requires
            parse_24h(depart@) is Some,
        ensures
            r matches Link::Rail(rl) && rl.dst == dst && rl.service == service && Some(rl.depart@)
                == parse_24h(depart@) && rl.time == time,
    {
        let d = RailTime::from_24h(depart);
        Link::Rail(RailLink { dst, service, depart: d.unwrap(), time })
    }

    /// A fixed link.
    pub fn simple_fixed(dst: StationId, time: u32, kind: FixedLinkKind) -> (r: Self)
        ensures
            r == Link::Fixed(FixedLink { dst, time, kind }),
    {
        Link::Fixed(FixedLink { dst, time, kind })
    }

    /// Whether this is the marker of a journey's start.
    pub fn is_dummy(&self) -> (r: bool)
        ensures
            r == (*self == Link::Dummy),
    {
        match self {
            Link::Dummy => true,
            _ => false,
        }
    }

    /// The service of a rail link.
    pub fn service(&self) -> (r: Option<ServiceId>)
        ensures
            r == link_service(*self),
    {
        match self {
            Link::Rail(rl) => Some(rl.service),
            _ => None,
        }
    }

    /// Whether going from this link onto `other` is a change of service:
    /// the services differ, or this link is not a rail link.
    pub fn ischange(&self, other: &Self) -> (r: bool)
        ensures
            r == (link_service(*self) != link_service(*other) || link_service(*self) is None),
    {
        let a = self.service();
        let b = other.service();
        match (a, b) {
            (Some(x), Some(y)) => x != y,
            _ => true,
        }
    }
}

/// A journey: where and when it starts, how long it takes, and its links,
/// with consecutive rail links of one service joined into one.
#[derive(Debug)]
pub struct Journey {
    pub origin: StationId,
    pub depart: RailTime,
    pub time: u32,
    pub links: Vec<Link>,
}

/// A station of the travel graph: its outgoing links and interchange time.
#[derive(Debug, Clone, PartialEq)]
pub struct TGNode {
    pub links: Vec<Link>,
    pub transfer_time: u32,
}

/// The travel graph; node `i` belongs to station `i`.
#[derive(Debug, Clone, PartialEq)]
pub struct TravelGraph {
    pub stations: Vec<TGNode>,
}

/// The links that one fixed link gives station `i`: one per end at `i`.
pub open spec fn fixed_contrib(f: fixed_links::FixedLink, i: int) -> Seq<Link> {
    let to_b = if f.a == i {
        seq![Link::Fixed(FixedLink { dst: f.b, time: f.time, kind: f.kind })]
    } else {
        Seq::empty()
    };
    let to_a = if f.b == i {
        seq![Link::Fixed(FixedLink { dst: f.a, time: f.time, kind: f.kind })]
    } else {
        Seq::empty()
    };
    to_b + to_a
}

/// The links that the fixed links `fl` give station `i`, in order.
pub open spec fn fixed_links_of(fl: Seq<fixed_links::FixedLink>, i: int) -> Seq<Link>
    decreases fl.len(),
{
    if fl.len() == 0 {
        Seq::empty()
    } else {
        fixed_links_of(fl.drop_last(), i) + fixed_contrib(fl.last(), i)
    }
}

/// The rail link of a service between its stops `k` and `k + 1`.
pub open spec fn rail_link_at(id: ServiceId, stops: Seq<Stop>, k: int) -> Link {
    Link::Rail(RailLink {
        dst: stops[k + 1].station,
        service: id,
        depart: stops[k].departure,
        time: secs_until(stops[k].departure@, stops[k + 1].arrival@) as u32,
    })
}

/// The rail links that the first `k` stop pairs of a service give station `i`.
pub open spec fn service_links_upto(id: ServiceId, stops: Seq<Stop>, i: int, k: int) -> Seq<Link>
    decreases k,
{
    if k <= 0 {
        Seq::empty()
    } else if stops[k - 1].station == i {
        service_links_upto(id, stops, i, k - 1).push(rail_link_at(id, stops, k - 1))
    } else {
        service_links_upto(id, stops, i, k - 1)
    }
}

/// The rail links that a service gives station `i`: one for each stop at `i`
/// that has a next stop.
pub open spec fn service_links(s: Service, i: int) -> Seq<Link> {
    service_links_upto(s.id, s.stops@, i, s.stops@.len() - 1)
}

/// The rail links that the services `ss` give station `i`, in order.
pub open spec fn rail_links_of(ss: Seq<Service>, i: int) -> Seq<Link>
    decreases ss.len(),
{
    if ss.len() == 0 {
        Seq::empty()
    } else {
        rail_links_of(ss.drop_last(), i) + service_links(ss.last(), i)
    }
}

/// Whether all stations that the fixed links and services name are below `n`.
pub open spec fn inputs_in_range(n: int, fl: Seq<fixed_links::FixedLink>, ss: Seq<Service>) -> bool {
    &&& forall|j: int| 0 <= j < fl.len() ==> (#[trigger] fl[j]).a < n && fl[j].b < n
    &&& forall|j: int, k: int| 0 <= j < ss.len() && 0 <= k < ss[j].stops@.len() ==> (#[trigger] ss[j].stops@[k]).station < n
}

/// Whether every link of the graph leads to a station of the graph.
pub open spec fn graph_wf(g: Seq<TGNode>) -> bool {
    forall|u: int, k: int| 0 <= u < g.len() && 0 <= k < g[u].links@.len() ==> link_in_range(
        #[trigger] g[u].links@[k], g.len() as int)
}

/// Whether a link leads to a station below `n`.
pub open spec fn link_in_range(l: Link, n: int) -> bool {
    match l {
        Link::Rail(r) => r.dst < n,
        Link::Fixed(f) => f.dst < n,
        Link::Dummy => true,
    }
}

impl TravelGraph {
    /// Whether every link leads to a station of the graph.
    pub open spec fn wf(&self) -> bool {
        graph_wf(self.stations@)
    }

    /// Builds the graph: one node per station with its interchange time,
    /// both directions of each fixed link, then for each service a rail link
    /// between each pair of consecutive stops.
    pub fn new(stations: &StationList, fixedlinks: &Vec<fixed_links::FixedLink>, timetable: &Timetable) -> (r: Self)
        requires
            inputs_in_range(stations@.len() as int, fixedlinks@, timetable.services@),
        ensures
            r.wf(),
            r.stations@.len() == stations@.len(),
            forall|i: int| 0 <= i < stations@.len() ==> (#[trigger] r.stations@[i]).transfer_time
                == stations@[i].min_change_time && r.stations@[i].links@ == fixed_links_of(fixedlinks@, i)
                + rail_links_of(timetable.services@, i),
    {
        let n = stations.count();
        let list = stations.iter();
        let mut nodes: Vec<TGNode> = Vec::with_capacity(n);
        let mut i: usize = 0;
        while i < n
            invariant
                n == stations@.len(),
                list@ == stations@,
                i <= n,
                nodes@.len() == i,
                forall|j: int| 0 <= j < i ==> (#[trigger] nodes@[j]).transfer_time == stations@[j].min_change_time
                    && nodes@[j].links@ == Seq::<Link>::empty(),
            decreases n - i,
        {
            nodes.push(TGNode { links: Vec::new(), transfer_time: list[i].min_change_time });
            i = i + 1;
        }
        let mut f: usize = 0;
        while f < fixedlinks.len()
            invariant
                n == stations@.len(),
                inputs_in_range(n as int, fixedlinks@, timetable.services@),
                f <= fixedlinks@.len(),
                nodes@.len() == n,
                forall|j: int| 0 <= j < n ==> (#[trigger] nodes@[j]).transfer_time == stations@[j].min_change_time
                    && nodes@[j].links@ == fixed_links_of(fixedlinks@.subrange(0, f as int), j),
            decreases fixedlinks@.len() - f,
        {
            let fl = fixedlinks[f];
            let ghost prev = nodes@;
            push_link(&mut nodes, fl.a, Link::Fixed(FixedLink { dst: fl.b, time: fl.time, kind: fl.kind }));
            push_link(&mut nodes, fl.b, Link::Fixed(FixedLink { dst: fl.a, time: fl.time, kind: fl.kind }));
            assert forall|j: int| 0 <= j < n implies (#[trigger] nodes@[j]).transfer_time == stations@[j].min_change_time
                && nodes@[j].links@ == fixed_links_of(fixedlinks@.subrange(0, f + 1), j) by {
                assert(fixedlinks@.subrange(0, f + 1).drop_last() =~= fixedlinks@.subrange(0, f as int));
                assert(nodes@[j].links@ =~= prev[j].links@ + fixed_contrib(fl, j));
            }
            f = f + 1;
        }
        assert(fixedlinks@.subrange(0, fixedlinks@.len() as int) =~= fixedlinks@);
        let services = &timetable.services;
        let mut s: usize = 0;
        while s < services.len()
            invariant
                n == stations@.len(),
                inputs_in_range(n as int, fixedlinks@, timetable.services@),
                services@ == timetable.services@,
                s <= services@.len(),
                nodes@.len() == n,
                forall|j: int| 0 <= j < n ==> (#[trigger] nodes@[j]).transfer_time == stations@[j].min_change_time
                    && nodes@[j].links@ == fixed_links_of(fixedlinks@, j) + rail_links_of(services@.subrange(0, s as int), j),
            decreases services@.len() - s,
        {
            let service = &services[s];
            let stops = &service.stops;
            let ghost before = nodes@;
            let mut k: usize = 0;
            let pairs: usize = if stops.len() == 0 { 0 } else { stops.len() - 1 };
            while k < pairs
                invariant
                    n == stations@.len(),
                    inputs_in_range(n as int, fixedlinks@, timetable.services@),
                    services@ == timetable.services@,
                    s < services@.len(),
                    *service == services@[s as int],
                    stops@ == service.stops@,
                    pairs == if stops@.len() == 0 { 0 } else { stops@.len() - 1 },
                    k <= pairs,
                    nodes@.len() == n,
                    forall|j: int| 0 <= j < n ==> (#[trigger] nodes@[j]).transfer_time == before[j].transfer_time
                        && nodes@[j].links@ == before[j].links@ + service_links_upto(service.id, stops@, j, k as int),
                decreases pairs - k,
            {
                let s1 = stops[k];
                let s2 = stops[k + 1];
                assert(services@[s as int].stops@[k as int] == s1);
                assert(services@[s as int].stops@[k + 1] == s2);
                let ghost mid = nodes@;
                push_link(&mut nodes, s1.station, Link::Rail(RailLink {
                    dst: s2.station,
                    service: service.id,
                    depart: s1.departure,
                    time: s1.departure.timetil(&s2.arrival),
                }));
                assert forall|j: int| 0 <= j < n implies (#[trigger] nodes@[j]).transfer_time == before[j].transfer_time
                    && nodes@[j].links@ == before[j].links@ + service_links_upto(service.id, stops@, j, k + 1) by {
                    if j == s1.station {
                        assert(nodes@[j].links@ =~= mid[j].links@.push(rail_link_at(service.id, stops@, k as int)));
                    }
                }
                k = k + 1;
            }
            assert forall|j: int| 0 <= j < n implies (#[trigger] nodes@[j]).transfer_time == stations@[j].min_change_time
                && nodes@[j].links@ == fixed_links_of(fixedlinks@, j) + rail_links_of(services@.subrange(0, s + 1), j) by {
                assert(services@.subrange(0, s + 1).drop_last() =~= services@.subrange(0, s as int));
                if stops@.len() == 0 {
                    assert(service_links_upto(service.id, stops@, j, -1) == Seq::<Link>::empty());
                }
                assert(nodes@[j].links@ =~= fixed_links_of(fixedlinks@, j) + rail_links_of(services@.subrange(0, s + 1), j));
            }
            s = s + 1;
        }
        assert(services@.subrange(0, services@.len() as int) =~= services@);
        let r = TravelGraph { stations: nodes };
        proof {
            assert forall|u: int, k: int| 0 <= u < r.stations@.len() && 0 <= k < r.stations@[u].links@.len()
                implies link_in_range(#[trigger] r.stations@[u].links@[k], n as int) by {
                lemma_links_in_range(fixedlinks@, services@, u, n as int);
            }
        }
        r
    }

    /// The best journey from `origin`, leaving at `depart`, to each of the
    /// destinations in turn. Each change of service costs the station's
    /// interchange time plus `contingency` seconds; at the origin, a train
    /// leaving less than `flexi_depart` seconds after `depart` is boarded
    /// without waiting. An unreachable destination gets time `u32::MAX`, no
    /// links and 00:00.
    pub fn compute_journeys(&self, depart: RailTime, origin: StationId, destinations: Vec<StationId>, contingency: u32, flexi_depart: u32) -> (r: Vec<Journey>)
        requires
            self.wf(),
            origin < self.stations@.len(),
            forall|i: int| 0 <= i < destinations@.len() ==> #[trigger] destinations@[i] < self.stations@.len(),
        ensures
            r@.len() == destinations@.len(),
            exists|labels: Seq<crate::dijkstras::BestJourney>, ranks: Seq<nat>| {
                &&& labels == search(self.stations@, depart, origin as int, contingency, flexi_depart)
                &&& settled(self.stations@, labels, ranks, origin as int, contingency, flexi_depart)
                &&& chains_ok(labels, ranks)
                &&& labels[origin as int].depart == depart
                &&& forall|i: int| 0 <= i < destinations@.len() ==> is_journey_to(#[trigger] r@[i], labels, ranks, destinations@[i] as int)
            },
    {
        let mut pathfinder = TimeDijkstras::new(self.stations.len(), contingency);
        pathfinder.perform(self, origin, depart, flexi_depart);
        let ghost labels = pathfinder.labels();
        let ghost ranks = pathfinder.ranks();
        let mut journeys: Vec<Journey> = Vec::new();
        let mut i: usize = 0;
        while i < destinations.len()
            invariant
                i <= destinations@.len(),
                journeys@.len() == i,
                labels == pathfinder.labels(),
                ranks == pathfinder.ranks(),
                labels.len() == self.stations@.len(),
                chains_ok(labels, ranks),
                forall|k: int| 0 <= k < destinations@.len() ==> #[trigger] destinations@[k] < self.stations@.len(),
                forall|k: int| 0 <= k < i ==> is_journey_to(#[trigger] journeys@[k], labels, ranks, destinations@[k] as int),
            decreases destinations@.len() - i,
        {
            let j = pathfinder.best_journey(destinations[i]);
            journeys.push(j);
            i = i + 1;
        }
        assert(forall|k: int| 0 <= k < destinations@.len() ==> is_journey_to(#[trigger] journeys@[k], labels, ranks, destinations@[k] as int));
        journeys
    }

    /// The total number of links, and the least and greatest number of links
    /// of one station (both zero for a graph without stations).
    pub fn stat_edges(&self) -> (r: (usize, usize, usize))
        ensures
            r.0 as int == total_links(self.stations@) || r.0 == usize::MAX,
            forall|i: int| 0 <= i < self.stations@.len() ==> r.1 <= (#[trigger] self.stations@[i]).links@.len() <= r.2,
            self.stations@.len() == 0 ==> r.1 == 0 && r.2 == 0,
            self.stations@.len() > 0 ==> (exists|i: int| 0 <= i < self.stations@.len() && (#[trigger] self.stations@[i]).links@.len() == r.1)
                && (exists|i: int| 0 <= i < self.stations@.len() && (#[trigger] self.stations@[i]).links@.len() == r.2),
    {
        let mut total: usize = 0;
        let mut min: usize = 0;
        let mut max: usize = 0;
        let mut i: usize = 0;
        while i < self.stations.len()
            invariant
                i <= self.stations@.len(),
                total as int == total_links(self.stations@.subrange(0, i as int)) || total == usize::MAX,
                forall|j: int| 0 <= j < i ==> min <= (#[trigger] self.stations@[j]).links@.len() <= max,
                i == 0 ==> min == 0 && max == 0,
                i > 0 ==> (exists|j: int| 0 <= j < i && (#[trigger] self.stations@[j]).links@.len() == min)
                    && (exists|j: int| 0 <= j < i && (#[trigger] self.stations@[j]).links@.len() == max),
            decreases self.stations@.len() - i,
        {
            let l = self.stations[i].links.len();
            assert(self.stations@.subrange(0, i + 1).drop_last() =~= self.stations@.subrange(0, i as int));
            total = total.saturating_add(l);
            if i == 0 || l < min {
                min = l;
            }
            if i == 0 || l > max {
                max = l;
            }
            i = i + 1;
        }
        assert(self.stations@.subrange(0, i as int) =~= self.stations@);
        (total, min, max)
    }
}

/// How many times link `l` arises at station `x` from the fixed links `fl`:
/// once for each fixed link with `x` at its `a` end that leads to its `b` end,
/// and once for each with `x` at its `b` end that leads to its `a` end.
pub open spec fn fixed_count(fl: Seq<fixed_links::FixedLink>, x: int, l: Link) -> nat
    decreases fl.len(),
{
    if fl.len() == 0 {
        0
    } else {
        let f = fl.last();
        fixed_count(fl.drop_last(), x, l)
            + (if f.a == x && l == Link::Fixed(FixedLink { dst: f.b, time: f.time, kind: f.kind }) { 1nat } else { 0nat })
            + (if f.b == x && l == Link::Fixed(FixedLink { dst: f.a, time: f.time, kind: f.kind }) { 1nat } else { 0nat })
    }
}

/// How many of the first `k` stop pairs of a service, leaving from station
/// `x`, give the rail link `l`.
pub open spec fn pair_count(id: ServiceId, stops: Seq<Stop>, x: int, l: Link, k: int) -> nat
    decreases k,
{
    if k <= 0 {
        0
    } else {
        pair_count(id, stops, x, l, k - 1)
            + (if stops[k - 1].station == x && l == rail_link_at(id, stops, k - 1) { 1nat } else { 0nat })
    }
}

/// How many stop pairs of the services, leaving from station `x`, give the
/// rail link `l`: a link to the next stop on that service, leaving at the
/// stop's departure and taking the time until the next stop's arrival.
pub open spec fn rail_count(ss: Seq<Service>, x: int, l: Link) -> nat
    decreases ss.len(),
{
    if ss.len() == 0 {
        0
    } else {
        let s = ss.last();
        rail_count(ss.drop_last(), x, l) + pair_count(s.id, s.stops@, x, l, s.stops@.len() - 1)
    }
}

proof fn lemma_concat_count(a: Seq<Link>, b: Seq<Link>, l: Link)
    ensures
        (a + b).to_multiset().count(l) == a.to_multiset().count(l) + b.to_multiset().count(l),
    decreases b.len(),
{
    broadcast use vstd::seq_lib::group_to_multiset_ensures;

    if b.len() == 0 {
        assert(a + b =~= a);
        assert(b.to_multiset() =~= Multiset::<Link>::empty());
    } else {
        let c = b.drop_last();
        lemma_concat_count(a, c, l);
        assert(a + b =~= (a + c).push(b.last()));
        assert(b =~= c.push(b.last()));
    }
}

proof fn lemma_fixed_count(fl: Seq<fixed_links::FixedLink>, x: int, l: Link)
    ensures
        fixed_links_of(fl, x).to_multiset().count(l) == fixed_count(fl, x, l),
    decreases fl.len(),
{
    broadcast use vstd::seq_lib::group_to_multiset_ensures;

    if fl.len() == 0 {
        assert(fixed_links_of(fl, x).to_multiset() =~= Multiset::<Link>::empty());
    } else {
        lemma_fixed_count(fl.drop_last(), x, l);
        let c = fixed_contrib(fl.last(), x);
        lemma_concat_count(fixed_links_of(fl.drop_last(), x), c, l);
        let f = fl.last();
        let to_b = Link::Fixed(FixedLink { dst: f.b, time: f.time, kind: f.kind });
        let to_a = Link::Fixed(FixedLink { dst: f.a, time: f.time, kind: f.kind });
        if f.a == x && f.b == x {
            assert(c =~= seq![to_b].push(to_a));
            assert(seq![to_b] =~= Seq::<Link>::empty().push(to_b));
        } else if f.a == x {
            assert(c =~= Seq::<Link>::empty().push(to_b));
        } else if f.b == x {
            assert(c =~= Seq::<Link>::empty().push(to_a));
        } else {
            assert(c =~= Seq::<Link>::empty());
        }
        assert(Seq::<Link>::empty().to_multiset() =~= Multiset::<Link>::empty());
    }
}

proof fn lemma_pair_count(id: ServiceId, stops: Seq<Stop>, x: int, l: Link, k: int)
    ensures
        service_links_upto(id, stops, x, k).to_multiset().count(l) == pair_count(id, stops, x, l, k),
    decreases k,
{
    broadcast use vstd::seq_lib::group_to_multiset_ensures;

    if k <= 0 {
        assert(service_links_upto(id, stops, x, k).to_multiset() =~= Multiset::<Link>::empty());
    } else {
        lemma_pair_count(id, stops, x, l, k - 1);
    }
}

proof fn lemma_rail_count(ss: Seq<Service>, x: int, l: Link)
    ensures
        rail_links_of(ss, x).to_multiset().count(l) == rail_count(ss, x, l),
    decreases ss.len(),
{
    broadcast use vstd::seq_lib::group_to_multiset_ensures;

    if ss.len() == 0 {
        assert(rail_links_of(ss, x).to_multiset() =~= Multiset::<Link>::empty());
    } else {
        lemma_rail_count(ss.drop_last(), x, l);
        let s = ss.last();
        lemma_concat_count(rail_links_of(ss.drop_last(), x), service_links(s, x), l);
        lemma_pair_count(s.id, s.stops@, x, l, s.stops@.len() - 1);
    }
}

/// In a built graph, each link of a station arises from the inputs and only
/// so: a rail link once for each consecutive stop pair of a service leaving
/// that station, to the next stop, leaving at the stop's departure and
/// taking the time until the next stop's arrival; a fixed link once at each
/// of its two ends.
pub proof fn lemma_graph_links(g: Seq<TGNode>, fl: Seq<fixed_links::FixedLink>, ss: Seq<Service>, x: int, l: Link)
    requires
        0 <= x < g.len(),
        forall|i: int| 0 <= i < g.len() ==> (#[trigger] g[i]).links@ == fixed_links_of(fl, i) + rail_links_of(ss, i),
    ensures
        g[x].links@.to_multiset().count(l) == fixed_count(fl, x, l) + rail_count(ss, x, l),
{
    lemma_concat_count(fixed_links_of(fl, x), rail_links_of(ss, x), l);
    lemma_fixed_count(fl, x, l);
    lemma_rail_count(ss, x, l);
}

/// The number of links over all nodes.
pub open spec fn total_links(g: Seq<TGNode>) -> int
    decreases g.len(),
{
    if g.len() == 0 {
        0
    } else {
        total_links(g.drop_last()) + g.last().links@.len()
    }
}

/// Appends a link to node `at`.
fn push_link(nodes: &mut Vec<TGNode>, at: usize, link: Link)
    requires
        at < old(nodes)@.len(),
    ensures
        final(nodes)@.len() == old(nodes)@.len(),
        forall|j: int| 0 <= j < old(nodes)@.len() && j != at ==> (#[trigger] final(nodes)@[j]) == old(nodes)@[j],
        final(nodes)@[at as int].transfer_time == old(nodes)@[at as int].transfer_time,
        final(nodes)@[at as int].links@ == old(nodes)@[at as int].links@.push(link),
{
    nodes[at].links.push(link);
}

proof fn lemma_fixed_links_in_range(fl: Seq<fixed_links::FixedLink>, i: int, n: int)
    requires
        forall|j: int| 0 <= j < fl.len() ==> (#[trigger] fl[j]).a < n && fl[j].b < n,
    ensures
        forall|k: int| 0 <= k < fixed_links_of(fl, i).len() ==> link_in_range(#[trigger] fixed_links_of(fl, i)[k], n),
    decreases fl.len(),
{
    if fl.len() > 0 {
        lemma_fixed_links_in_range(fl.drop_last(), i, n);
        assert(fl.last() == fl[fl.len() - 1]);
        let a = fixed_links_of(fl.drop_last(), i);
        let b = fixed_contrib(fl.last(), i);
        assert forall|k: int| 0 <= k < (a + b).len() implies link_in_range(#[trigger] (a + b)[k], n) by {
            if k < a.len() {
                assert((a + b)[k] == a[k]);
            } else {
                assert((a + b)[k] == b[k - a.len()]);
            }
        }
    }
}

proof fn lemma_service_links_in_range(id: ServiceId, stops: Seq<Stop>, i: int, k: int, n: int)
    requires
        k < stops.len(),
        forall|q: int| 0 <= q < stops.len() ==> (#[trigger] stops[q]).station < n,
    ensures
        forall|q: int| 0 <= q < service_links_upto(id, stops, i, k).len() ==> link_in_range(
            #[trigger] service_links_upto(id, stops, i, k)[q], n),
    decreases k,
{
    if k > 0 {
        lemma_service_links_in_range(id, stops, i, k - 1, n);
        assert(stops[k].station < n);
        let prev = service_links_upto(id, stops, i, k - 1);
        if stops[k - 1].station == i {
            assert forall|q: int| 0 <= q < prev.len() + 1 implies link_in_range(
                #[trigger] prev.push(rail_link_at(id, stops, k - 1))[q], n) by {
                if q < prev.len() {
                    assert(prev.push(rail_link_at(id, stops, k - 1))[q] == prev[q]);
                }
            }
        }
    }
}

proof fn lemma_rail_links_in_range(ss: Seq<Service>, i: int, n: int)
    requires
        forall|j: int, k: int| 0 <= j < ss.len() && 0 <= k < ss[j].stops@.len() ==> (#[trigger] ss[j].stops@[k]).station < n,
    ensures
        forall|k: int| 0 <= k < rail_links_of(ss, i).len() ==> link_in_range(#[trigger] rail_links_of(ss, i)[k], n),
    decreases ss.len(),
{
    if ss.len() > 0 {
        lemma_rail_links_in_range(ss.drop_last(), i, n);
        let last = ss.last();
        assert(last == ss[ss.len() - 1]);
        assert forall|q: int| 0 <= q < last.stops@.len() implies (#[trigger] last.stops@[q]).station < n by {
            assert(ss[ss.len() - 1].stops@[q] == last.stops@[q]);
        }
        lemma_service_links_in_range(last.id, last.stops@, i, last.stops@.len() - 1, n);
        let a = rail_links_of(ss.drop_last(), i);
        let b = service_links(last, i);
        assert forall|k: int| 0 <= k < (a + b).len() implies link_in_range(#[trigger] (a + b)[k], n) by {
            if k < a.len() {
                assert((a + b)[k] == a[k]);
            } else {
                assert((a + b)[k] == b[k - a.len()]);
            }
        }
    }
}

proof fn lemma_links_in_range(fl: Seq<fixed_links::FixedLink>, ss: Seq<Service>, i: int, n: int)
    requires
        inputs_in_range(n, fl, ss),
    ensures
        forall|k: int| 0 <= k < (fixed_links_of(fl, i) + rail_links_of(ss, i)).len() ==> link_in_range(
            #[trigger] (fixed_links_of(fl, i) + rail_links_of(ss, i))[k], n),
{
    lemma_fixed_links_in_range(fl, i, n);
    lemma_rail_links_in_range(ss, i, n);
    let a = fixed_links_of(fl, i);
    let b = rail_links_of(ss, i);
    assert forall|k: int| 0 <= k < (a + b).len() implies link_in_range(#[trigger] (a + b)[k], n) by {
        if k < a.len() {
            assert((a + b)[k] == a[k]);
        } else {
            assert((a + b)[k] == b[k - a.len()]);
        }
    }
}

} // verus!
