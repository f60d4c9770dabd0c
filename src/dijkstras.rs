//! Time-dependent earliest-arrival search over the travel graph, and the
//! reconstruction of the best journey to a station.
use vstd::prelude::*;
use vstd::multiset::Multiset;
use crate::stations::StationId;
use crate::timetable::{ServiceId, RailTime, secs_until};
use crate::travel_graph::{TravelGraph, TGNode, Link, RailLink, Journey, graph_wf, link_service, link_in_range};

verus! {

broadcast use crate::timetable::lemma_railtime_within_day;

/// The time of a station that has not been reached.
pub const UNREACHED: u32 = 0xffff_ffff;

/// The best journey found to a station: its total time from the origin, the
/// clock time it stands for, and the station and link it came by.
#[derive(Debug, Clone, Copy, PartialEq, Eq, Structural)]
pub struct BestJourney {
    pub time: u32,
    pub depart: RailTime,
    pub last_station: StationId,
    pub last_link: Link,
}

/// The station a link leads to.
pub open spec fn link_dst(l: Link) -> int {
    match l {
        Link::Rail(r) => r.dst as int,
        Link::Fixed(f) => f.dst as int,
        Link::Dummy => -1,
    }
}

/// The travel time of a link itself, without waiting.
pub open spec fn link_time(l: Link) -> nat {
    match l {
        Link::Rail(r) => r.time as nat,
        Link::Fixed(f) => f.time as nat,
        Link::Dummy => 0,
    }
}

/// The cost of boarding a train of `service` after arriving by `prev`: the
/// interchange time plus the contingency, unless it is the same service.
pub open spec fn change_cost(prev: Link, service: ServiceId, xfer: u32, contingency: u32) -> nat {
    if link_service(prev) == Some(service) {
        0
    } else {
        (xfer + contingency) as nat
    }
}

/// The total time at the end of link `l` taken from a station whose best
/// journey is `b`. At the origin a train leaving within the flexi-depart
/// window is boarded without waiting.
pub open spec fn relax_time(b: BestJourney, at_origin: bool, l: Link, xfer: u32, contingency: u32, flexi: u32) -> nat {
    match l {
        Link::Rail(r) => {
            let c = change_cost(b.last_link, r.service, xfer, contingency);
            let wait = if at_origin && secs_until(b.depart@, r.depart@) < flexi {
                0
            } else {
                c + secs_until((b.depart@ + c) % 86400, r.depart@)
            };
            (b.time + wait + r.time) as nat
        },
        Link::Fixed(f) => (b.time + f.time) as nat,
        Link::Dummy => b.time as nat,
    }
}

/// The clock time at the end of link `l` taken from a station whose best
/// journey is `b`.
pub open spec fn relax_clock(b: BestJourney, l: Link) -> nat {
    match l {
        Link::Rail(r) => ((r.depart@ + r.time) % 86400) as nat,
        Link::Fixed(f) => ((b.depart@ + f.time) % 86400) as nat,
        Link::Dummy => b.depart@,
    }
}

/// The total time at the end of link `l` from station `u`, under the labels.
pub open spec fn relax_from(g: Seq<TGNode>, labels: Seq<BestJourney>, origin: int, contingency: u32, flexi: u32, u: int, l: Link) -> nat {
    relax_time(labels[u], u == origin, l, g[u].transfer_time, contingency, flexi)
}

/// Whether taking link `l` from `u` would improve the best journey to its end.
pub open spec fn improves(g: Seq<TGNode>, labels: Seq<BestJourney>, origin: int, contingency: u32, flexi: u32, u: int, l: Link) -> bool {
    l != Link::Dummy && relax_from(g, labels, origin, contingency, flexi, u, l) < labels[link_dst(l)].time
}

/// Whether no link of `u` improves the best journey to its end.
pub open spec fn exhausted(g: Seq<TGNode>, labels: Seq<BestJourney>, origin: int, contingency: u32, flexi: u32, u: int) -> bool {
    forall|k: int| 0 <= k < g[u].links@.len() ==> !improves(g, labels, origin, contingency, flexi, u, #[trigger] g[u].links@[k])
}

/// Whether a label is that of a station not reached: no time, 00:00, no link.
pub open spec fn is_unreached(b: BestJourney) -> bool {
    b.time == UNREACHED && b.depart@ == 0 && b.last_station == 0 && b.last_link == Link::Dummy
}

/// Whether the label of `v` is what taking its last link from its last
/// station gives, that station being reached and ranked before `v`.
pub open spec fn justified(g: Seq<TGNode>, labels: Seq<BestJourney>, ranks: Seq<nat>, origin: int, contingency: u32, flexi: u32, v: int) -> bool {
    let b = labels[v];
    let p = b.last_station as int;
    &&& 0 <= p < labels.len()
    &&& labels[p].time < UNREACHED
    &&& ranks[p] < ranks[v]
    &&& b.last_link != Link::Dummy
    &&& link_dst(b.last_link) == v
    &&& g[p].links@.contains(b.last_link)
    &&& b.time == relax_from(g, labels, origin, contingency, flexi, p, b.last_link)
    &&& b.depart@ == relax_clock(labels[p], b.last_link)
}

/// Whether the label of `v` is the origin's, an unreached one, or justified.
pub open spec fn label_ok(g: Seq<TGNode>, labels: Seq<BestJourney>, ranks: Seq<nat>, origin: int, contingency: u32, flexi: u32, v: int) -> bool {
    if v == origin {
        labels[v].time == 0 && labels[v].last_station == origin && labels[v].last_link == Link::Dummy
    } else if labels[v].time == UNREACHED {
        is_unreached(labels[v])
    } else {
        justified(g, labels, ranks, origin, contingency, flexi, v)
    }
}

/// The result of a search from `origin`: every label is the origin's, an
/// unreached one, or justified by its predecessor; and no link of a reached
/// station improves any label.
pub open spec fn settled(g: Seq<TGNode>, labels: Seq<BestJourney>, ranks: Seq<nat>, origin: int, contingency: u32, flexi: u32) -> bool {
    &&& labels.len() == g.len()
    &&& ranks.len() == g.len()
    &&& 0 <= origin < g.len()
    &&& forall|v: int| 0 <= v < g.len() ==> label_ok(g, labels, ranks, origin, contingency, flexi, v)
    &&& forall|u: int| 0 <= u < g.len() && (#[trigger] labels[u]).time < UNREACHED ==> exhausted(g, labels, origin, contingency, flexi, u)
}

/// Whether every predecessor chain is well founded and its link times add up
/// within the label times.
pub open spec fn chains_ok(labels: Seq<BestJourney>, ranks: Seq<nat>) -> bool {
    &&& ranks.len() == labels.len()
    &&& forall|v: int| 0 <= v < labels.len() && (#[trigger] labels[v]).last_link != Link::Dummy ==> {
        let p = labels[v].last_station as int;
        &&& 0 <= p < labels.len()
        &&& ranks[p] < ranks[v]
        &&& labels[p].time + link_time(labels[v].last_link) <= labels[v].time
    }
}

/// The links by which the best journey to `v` arrives, in travel order.
pub open spec fn chain_links(labels: Seq<BestJourney>, ranks: Seq<nat>, v: int) -> Seq<Link>
    decreases ranks[v],
{
    if !(0 <= v < labels.len() && v < ranks.len()) || labels[v].last_link == Link::Dummy {
        Seq::empty()
    } else {
        let p = labels[v].last_station as int;
        if 0 <= p < ranks.len() && ranks[p] < ranks[v] {
            chain_links(labels, ranks, p).push(labels[v].last_link)
        } else {
            Seq::empty()
        }
    }
}

/// The station where the best journey to `v` starts.
pub open spec fn chain_start(labels: Seq<BestJourney>, ranks: Seq<nat>, v: int) -> int
    decreases ranks[v],
{
    if !(0 <= v < labels.len() && v < ranks.len()) {
        v
    } else if labels[v].last_link == Link::Dummy {
        labels[v].last_station as int
    } else {
        let p = labels[v].last_station as int;
        if 0 <= p < ranks.len() && ranks[p] < ranks[v] {
            chain_start(labels, ranks, p)
        } else {
            v
        }
    }
}

/// The clock time before link `l`, given the clock time `clock` after it: a
/// train's own departure, or `clock` less the link's time.
pub open spec fn clock_before(l: Link, clock: nat) -> nat {
    match l {
        Link::Rail(r) => r.depart@,
        Link::Fixed(f) => ((clock - f.time) % 86400) as nat,
        Link::Dummy => clock,
    }
}

/// The clock time at which the best journey to `v` leaves its start, walking
/// back from clock time `clock` at `v`.
pub open spec fn chain_depart(labels: Seq<BestJourney>, ranks: Seq<nat>, v: int, clock: nat) -> nat
    decreases ranks[v],
{
    if !(0 <= v < labels.len() && v < ranks.len()) || labels[v].last_link == Link::Dummy {
        clock
    } else {
        let p = labels[v].last_station as int;
        if 0 <= p < ranks.len() && ranks[p] < ranks[v] {
            chain_depart(labels, ranks, p, clock_before(labels[v].last_link, clock))
        } else {
            clock
        }
    }
}

/// Links with consecutive rail links of one service joined: the joined link
/// leaves at the first one's departure, ends where the last one ends, and
/// takes their times together.
pub open spec fn coalesce(ls: Seq<Link>) -> Seq<Link>
    decreases ls.len(),
{
    if ls.len() == 0 {
        Seq::empty()
    } else {
        let rest = coalesce(ls.drop_first());
        join_front(ls[0], rest)
    }
}

/// `l` put in front of `rest`, joined with its first link where both are rail
/// links of one service.
pub open spec fn join_front(l: Link, rest: Seq<Link>) -> Seq<Link> {
    if rest.len() > 0 && l is Rail && rest[0] is Rail && l->Rail_0.service == rest[0]->Rail_0.service {
        let (a, b) = (l->Rail_0, rest[0]->Rail_0);
        rest.update(0, Link::Rail(RailLink { dst: b.dst, service: b.service, depart: a.depart, time: (a.time + b.time) as u32 }))
    } else {
        seq![l] + rest
    }
}

/// Whether `j` is the journey to `d` under the labels.
pub open spec fn is_journey_to(j: Journey, labels: Seq<BestJourney>, ranks: Seq<nat>, d: int) -> bool {
    &&& j.origin == chain_start(labels, ranks, d)
    &&& j.depart@ == chain_depart(labels, ranks, d, labels[d].depart@)
    &&& j.time == labels[d].time
    &&& j.links@ == coalesce(chain_links(labels, ranks, d))
}

/// The weight of each step of a path, under the labels: the total time at
/// the end of its link less the label time at its start.
pub open spec fn path_weight(g: Seq<TGNode>, labels: Seq<BestJourney>, origin: int, contingency: u32, flexi: u32,
    stations: Seq<int>, links: Seq<Link>) -> int
    decreases links.len(),
{
    if links.len() == 0 {
        0
    } else {
        let k = links.len() - 1;
        path_weight(g, labels, origin, contingency, flexi, stations.drop_last(), links.drop_last())
            + relax_from(g, labels, origin, contingency, flexi, stations[k], links[k]) - labels[stations[k]].time
    }
}

/// Whether `stations` and `links` form a path of the graph from `origin`:
/// each link is one of its station's links and leads to the next station.
pub open spec fn is_path(g: Seq<TGNode>, origin: int, stations: Seq<int>, links: Seq<Link>) -> bool {
    &&& stations.len() == links.len() + 1
    &&& stations[0] == origin
    &&& forall|k: int| 0 <= k < links.len() ==> 0 <= #[trigger] stations[k] < g.len()
        && g[stations[k]].links@.contains(links[k]) && links[k] != Link::Dummy && link_dst(links[k]) == stations[k + 1]
}

/// After a search, the time of the best journey to any station is at most
/// the summed weight of any path to it from the origin, each link weighed by
/// the relaxation from the best journey at its start.
pub proof fn lemma_best_time_bounded_by_path(g: Seq<TGNode>, labels: Seq<BestJourney>, ranks: Seq<nat>, origin: int,
    contingency: u32, flexi: u32, stations: Seq<int>, links: Seq<Link>)
    requires
        graph_wf(g),
        settled(g, labels, ranks, origin, contingency, flexi),
        is_path(g, origin, stations, links),
    ensures
        labels[stations.last()].time <= path_weight(g, labels, origin, contingency, flexi, stations, links),
    decreases links.len(),
{
    if links.len() == 0 {
        assert(label_ok(g, labels, ranks, origin, contingency, flexi, origin));
    } else {
        let k = links.len() - 1;
        let (ps, pl) = (stations.drop_last(), links.drop_last());
        assert forall|j: int| 0 <= j < pl.len() implies 0 <= #[trigger] ps[j] < g.len()
            && g[ps[j]].links@.contains(pl[j]) && pl[j] != Link::Dummy && link_dst(pl[j]) == ps[j + 1] by {
            assert(ps[j] == stations[j] && pl[j] == links[j] && ps[j + 1] == stations[j + 1]);
        }
        lemma_best_time_bounded_by_path(g, labels, ranks, origin, contingency, flexi, ps, pl);
        let u = stations[k];
        let l = links[k];
        assert(ps.last() == u);
        assert(0 <= u < g.len());
        let w = choose|w: int| 0 <= w < g[u].links@.len() && g[u].links@[w] == l;
        assert(link_in_range(g[u].links@[w], g.len() as int));
        if labels[u].time < UNREACHED {
            assert(exhausted(g, labels, origin, contingency, flexi, u));
            assert(!improves(g, labels, origin, contingency, flexi, u, g[u].links@[w]));
        } else {
            assert(label_ok(g, labels, ranks, origin, contingency, flexi, link_dst(l)));
        }
    }
}

/// Under well-founded ranks, the journey read back from the labels does not
/// depend on which ranks.
proof fn lemma_chain_ranks(labels: Seq<BestJourney>, r1: Seq<nat>, r2: Seq<nat>, v: int)
    requires
        chains_ok(labels, r1),
        chains_ok(labels, r2),
        0 <= v < labels.len(),
    ensures
        chain_links(labels, r1, v) == chain_links(labels, r2, v),
        chain_start(labels, r1, v) == chain_start(labels, r2, v),
        forall|clock: nat| #[trigger] chain_depart(labels, r1, v, clock) == chain_depart(labels, r2, v, clock),
    decreases r1[v],
{
    if labels[v].last_link != Link::Dummy {
        let p = labels[v].last_station as int;
        lemma_chain_ranks(labels, r1, r2, p);
        assert forall|clock: nat| #[trigger] chain_depart(labels, r1, v, clock) == chain_depart(labels, r2, v, clock) by {
            let c2 = clock_before(labels[v].last_link, clock);
            assert(chain_depart(labels, r1, p, c2) == chain_depart(labels, r2, p, c2));
        }
    }
}

/// Identical queries give identical journeys: two journeys to one
/// destination, each read from the search of the same graph, start time,
/// origin, contingency and flexi-depart window, agree in origin, departure,
/// total time and links.
pub proof fn lemma_identical_queries_identical_journeys(g: Seq<TGNode>, start: RailTime, origin: int, contingency: u32,
    flexi: u32, d: int, r1: Seq<nat>, r2: Seq<nat>, j1: Journey, j2: Journey)
    requires
        0 <= d < search(g, start, origin, contingency, flexi).len(),
        chains_ok(search(g, start, origin, contingency, flexi), r1),
        chains_ok(search(g, start, origin, contingency, flexi), r2),
        is_journey_to(j1, search(g, start, origin, contingency, flexi), r1, d),
        is_journey_to(j2, search(g, start, origin, contingency, flexi), r2, d),
    ensures
        j1.origin == j2.origin,
        j1.depart@ == j2.depart@,
        j1.time == j2.time,
        j1.links@ == j2.links@,
{
    let labels = search(g, start, origin, contingency, flexi);
    lemma_chain_ranks(labels, r1, r2, d);
    assert(chain_depart(labels, r1, d, labels[d].depart@) == chain_depart(labels, r2, d, labels[d].depart@));
}

/// The sum of the label times.
pub open spec fn sum_times(labels: Seq<BestJourney>) -> nat
    decreases labels.len(),
{
    if labels.len() == 0 {
        0
    } else {
        (sum_times(labels.drop_last()) + labels.last().time) as nat
    }
}

proof fn lemma_sum_times_update(labels: Seq<BestJourney>, v: int, b: BestJourney)
    requires
        0 <= v < labels.len(),
        b.time < labels[v].time,
    ensures
        sum_times(labels.update(v, b)) < sum_times(labels),
    decreases labels.len(),
{
    let u = labels.update(v, b);
    if v == labels.len() - 1 {
        assert(u.drop_last() =~= labels.drop_last());
    } else {
        assert(u.drop_last() =~= labels.drop_last().update(v, b));
        lemma_sum_times_update(labels.drop_last(), v, b);
    }
}

/// Whether entry `a` comes no later than `b`: by time, then by station.
pub open spec fn le_entry(a: (u32, usize), b: (u32, usize)) -> bool {
    a.0 < b.0 || (a.0 == b.0 && a.1 <= b.1)
}

/// The entry of least time, and least station among those, of the queue `q`.
pub open spec fn least(q: Multiset<(u32, usize)>) -> (u32, usize) {
    choose|e: (u32, usize)| q.contains(e) && forall|x: (u32, usize)| #[trigger] q.contains(x) ==> le_entry(e, x)
}

/// An entry that comes no later than all of the queue's is its least.
proof fn lemma_least(q: Multiset<(u32, usize)>, e: (u32, usize))
    requires
        q.contains(e),
        forall|x: (u32, usize)| #[trigger] q.contains(x) ==> le_entry(e, x),
    ensures
        least(q) == e,
{
    let l = least(q);
    assert(q.contains(l) && forall|x: (u32, usize)| #[trigger] q.contains(x) ==> le_entry(l, x));
    assert(le_entry(l, e) && le_entry(e, l));
}

/// The label of a station not reached.
pub open spec fn unreached_label() -> BestJourney {
    BestJourney { time: UNREACHED, depart: RailTime::spec_at(0), last_station: 0, last_link: Link::Dummy }
}

/// The index of the first link of `u`, from the `k`-th on, that improves the
/// best journey to its end.
pub open spec fn first_improving(g: Seq<TGNode>, labels: Seq<BestJourney>, o: int, c: u32, f: u32, u: int, k: int) -> Option<int>
    decreases g[u].links@.len() - k,
{
    if k < 0 || k >= g[u].links@.len() {
        None
    } else if improves(g, labels, o, c, f, u, g[u].links@[k]) {
        Some(k)
    } else {
        first_improving(g, labels, o, c, f, u, k + 1)
    }
}

/// Visiting station `u` taken off the queue at time `t`: the first link that
/// improves a best journey records it, and queues `u` again and the station
/// reached; where none does, nothing changes.
pub open spec fn visit(g: Seq<TGNode>, labels: Seq<BestJourney>, q: Multiset<(u32, usize)>, o: int, c: u32, f: u32, u: int, t: u32)
    -> (Seq<BestJourney>, Multiset<(u32, usize)>) {
    match first_improving(g, labels, o, c, f, u, 0) {
        None => (labels, q),
        Some(k) => {
            let l = g[u].links@[k];
            let time = relax_from(g, labels, o, c, f, u, l);
            let label = BestJourney {
                time: time as u32,
                depart: RailTime::spec_at(relax_clock(labels[u], l)),
                last_station: u as usize,
                last_link: l,
            };
            (labels.update(link_dst(l), label), q.insert((t, u as usize)).insert((time as u32, link_dst(l) as usize)))
        },
    }
}

/// One step of the search: take the least entry off the queue, and visit
/// its station unless the entry is stale.
pub open spec fn step(g: Seq<TGNode>, labels: Seq<BestJourney>, q: Multiset<(u32, usize)>, o: int, c: u32, f: u32)
    -> (Seq<BestJourney>, Multiset<(u32, usize)>) {
    if q.len() == 0 {
        (labels, q)
    } else {
        let e = least(q);
        let rest = q.remove(e);
        if e.1 < labels.len() && e.0 <= labels[e.1 as int].time {
            visit(g, labels, rest, o, c, f, e.1 as int, e.0)
        } else {
            (labels, rest)
        }
    }
}

/// The labels once the steps have emptied the queue.
pub open spec fn run(g: Seq<TGNode>, labels: Seq<BestJourney>, q: Multiset<(u32, usize)>, o: int, c: u32, f: u32) -> Seq<BestJourney>
    decreases sum_times(labels), q.len(),
{
    if q.len() == 0 {
        labels
    } else {
        let (l2, q2) = step(g, labels, q, o, c, f);
        if sum_times(l2) < sum_times(labels) || (sum_times(l2) == sum_times(labels) && q2.len() < q.len()) {
            run(g, l2, q2, o, c, f)
        } else {
            labels
        }
    }
}

/// The best journeys that a search from `origin` at clock time `start`
/// finds.
pub open spec fn search(g: Seq<TGNode>, start: RailTime, origin: int, contingency: u32, flexi: u32) -> Seq<BestJourney> {
    let fresh = Seq::new(g.len(), |i: int| unreached_label());
    let init = fresh.update(origin, BestJourney { time: 0, depart: start, last_station: origin as usize, last_link: Link::Dummy });
    run(g, init, Multiset::empty().insert((0u32, origin as usize)), origin, contingency, flexi)
}

/// Whether `s` is a binary min-heap: no entry comes before its parent.
pub open spec fn heap_ok(s: Seq<(u32, usize)>) -> bool {
    forall|i: int| 0 < i < s.len() ==> le_entry(s[(i - 1) / 2], #[trigger] s[i])
}

/// The root of a heap comes no later than any of its entries.
proof fn lemma_heap_root(s: Seq<(u32, usize)>, k: int)
    requires
        heap_ok(s),
        0 <= k < s.len(),
    ensures
        le_entry(s[0], s[k]),
    decreases k,
{
    if k > 0 {
        lemma_heap_root(s, (k - 1) / 2);
    }
}

/// Swapping two entries keeps the multiset of entries.
proof fn lemma_swap_multiset(s: Seq<(u32, usize)>, i: int, j: int)
    requires
        0 <= i < s.len(),
        0 <= j < s.len(),
    ensures
        s.update(i, s[j]).update(j, s[i]).to_multiset() =~= s.to_multiset(),
{
    let s1 = s.update(i, s[j]);
    vstd::seq_lib::to_multiset_update(s, i, s[j]);
    vstd::seq_lib::to_multiset_update(s1, j, s[i]);
    if i == j {
        assert(s1.update(j, s[i]) =~= s);
    } else {
        assert(s1[j] == s[j]);
        assert(s.to_multiset().contains(s[i])) by {
            broadcast use vstd::seq_lib::group_to_multiset_ensures;
            assert(s.contains(s[i]));
        }
        assert(s.to_multiset().insert(s[j]).remove(s[i]).insert(s[i]).remove(s[j]) =~= s.to_multiset());
    }
}

/// Whether every entry of `s` below `n`, but the children of `i`, comes no
/// earlier than its parent; and the parent of `i` comes no later than the
/// children of `i`.
spec fn heap_but(s: Seq<(u32, usize)>, i: int) -> bool {
    &&& forall|j: int| 0 < j < s.len() && (j - 1) / 2 != i ==> le_entry(s[(j - 1) / 2], #[trigger] s[j])
    &&& i > 0 ==> forall|k: int| 0 < k < s.len() && (k - 1) / 2 == i ==> le_entry(s[(i - 1) / 2], #[trigger] s[k])
}

/// Whether every entry of `s` but `i` comes no earlier than its parent; and
/// the parent of `i` comes no later than the children of `i`.
spec fn heap_but_up(s: Seq<(u32, usize)>, i: int) -> bool {
    &&& forall|j: int| 0 < j < s.len() && j != i ==> le_entry(s[(j - 1) / 2], #[trigger] s[j])
    &&& i > 0 ==> forall|k: int| 0 < k < s.len() && (k - 1) / 2 == i ==> le_entry(s[(i - 1) / 2], #[trigger] s[k])
}

/// Moving entry `i` up past its parent `p` keeps the heap but at `p`.
proof fn lemma_sift_up_step(s: Seq<(u32, usize)>, i: int)
    requires
        0 < i < s.len(),
        heap_but_up(s, i),
        !le_entry(s[(i - 1) / 2], s[i]),
    ensures
        heap_but_up(s.update((i - 1) / 2, s[i]).update(i, s[(i - 1) / 2]), (i - 1) / 2),
{
    let p = (i - 1) / 2;
    let t = s.update(p, s[i]).update(i, s[p]);
    assert forall|j: int| 0 < j < t.len() && j != p implies le_entry(t[(j - 1) / 2], #[trigger] t[j]) by {
        if j == i {
        } else if (j - 1) / 2 == p {
            assert(le_entry(s[p], s[j]));
        } else if (j - 1) / 2 == i {
            assert(le_entry(s[p], s[j]));
        } else {
            assert(le_entry(s[(j - 1) / 2], s[j]));
        }
    }
    if p > 0 {
        assert forall|k: int| 0 < k < t.len() && (k - 1) / 2 == p implies le_entry(t[(p - 1) / 2], #[trigger] t[k]) by {
            assert(le_entry(s[(p - 1) / 2], s[p]));
            if k != i {
                assert(le_entry(s[p], s[k]));
            }
        }
    }
}

/// Moving entry `i` down past its least child `c` keeps the heap but at `c`.
proof fn lemma_sift_down_step(s: Seq<(u32, usize)>, i: int, c: int)
    requires
        0 <= i < c < s.len(),
        (c - 1) / 2 == i,
        heap_but(s, i),
        forall|k: int| 0 < k < s.len() && (k - 1) / 2 == i ==> le_entry(s[c], #[trigger] s[k]),
        !le_entry(s[i], s[c]),
    ensures
        heap_but(s.update(c, s[i]).update(i, s[c]), c),
{
    let t = s.update(c, s[i]).update(i, s[c]);
    assert forall|j: int| 0 < j < t.len() && (j - 1) / 2 != c implies le_entry(t[(j - 1) / 2], #[trigger] t[j]) by {
        if j == c {
        } else if (j - 1) / 2 == i {
            assert(le_entry(s[c], s[j]));
        } else if j == i {
            assert(le_entry(s[(i - 1) / 2], s[c]));
        } else {
            assert(le_entry(s[(j - 1) / 2], s[j]));
        }
    }
    assert forall|k: int| 0 < k < t.len() && (k - 1) / 2 == c implies le_entry(t[(c - 1) / 2], #[trigger] t[k]) by {
        assert(le_entry(s[c], s[k]));
    }
}

/// The stations still to visit, each with the total time it was queued at,
/// kept as a binary min-heap.
pub struct VisitQueue {
    items: Vec<(u32, usize)>,
}

impl View for VisitQueue {
    type V = Multiset<(u32, usize)>;

    closed spec fn view(&self) -> Multiset<(u32, usize)> {
        self.items@.to_multiset()
    }
}

impl VisitQueue {
    /// Whether the entries form a heap.
    pub closed spec fn wf(&self) -> bool {
        heap_ok(self.items@)
    }

    /// An empty queue.
    pub fn new() -> (r: Self)
        ensures
            r@ == Multiset::<(u32, usize)>::empty(),
            r.wf(),
    {
        let r = VisitQueue { items: Vec::new() };
        proof {
            broadcast use vstd::seq_lib::group_to_multiset_ensures;
        }
        assert(r.items@.to_multiset() =~= Multiset::<(u32, usize)>::empty());
        r
    }

    /// Adds an entry, moving it up past the entries that come after it.
    pub fn insert(&mut self, time: u32, station: usize)
        requires
            old(self).wf(),
        ensures
            final(self)@ == old(self)@.insert((time, station)),
            final(self).wf(),
    {
        broadcast use vstd::seq_lib::group_to_multiset_ensures;

        let x = (time, station);
        self.items.push(x);
        let mut i: usize = self.items.len() - 1;
        assert(heap_but_up(self.items@, i as int));
        loop
            invariant
                i < self.items@.len(),
                self.items@.to_multiset() == old(self).items@.to_multiset().insert(x),
                heap_but_up(self.items@, i as int),
            ensures
                heap_ok(self.items@),
                self.items@.to_multiset() == old(self).items@.to_multiset().insert(x),
            decreases i,
        {
            if i == 0 {
                break;
            }
            let p = (i - 1) / 2;
            let a = self.items[p];
            let b = self.items[i];
            if a.0 < b.0 || (a.0 == b.0 && a.1 <= b.1) {
                break;
            }
            let ghost before = self.items@;
            self.items.set(p, b);
            self.items.set(i, a);
            proof {
                assert(self.items@ == before.update(p as int, before[i as int]).update(i as int, before[p as int]));
                lemma_swap_multiset(before, p as int, i as int);
                lemma_sift_up_step(before, i as int);
            }
            i = p;
        }
    }

    /// Removes and returns the entry of least time, the least station among
    /// those.
    pub fn pop_first(&mut self) -> (r: Option<(u32, usize)>)
        requires
            old(self).wf(),
        ensures
            final(self).wf(),
            old(self)@.len() == 0 ==> r is None && final(self)@ == old(self)@,
            old(self)@.len() > 0 ==> (r matches Some(e) && e == least(old(self)@) && old(self)@.contains(e)
                && final(self)@ == old(self)@.remove(e)
                && (forall|x: (u32, usize)| #[trigger] final(self)@.contains(x) ==> old(self)@.contains(x))
                && (forall|x: (u32, usize)| #[trigger] old(self)@.contains(x) && x != e ==> final(self)@.contains(x))
                && (forall|x: (u32, usize)| #[trigger] old(self)@.contains(x) ==> le_entry(e, x))),
    {
        broadcast use vstd::seq_lib::group_to_multiset_ensures;

        let n = self.items.len();
        if n == 0 {
            return None;
        }
        let e = self.items[0];
        proof {
            let s0 = old(self).items@;
            assert(s0.to_multiset().contains(e));
            assert forall|x: (u32, usize)| #[trigger] s0.to_multiset().contains(x) implies le_entry(e, x) by {
                assert(s0.contains(x));
                let k = choose|k: int| 0 <= k < s0.len() && s0[k] == x;
                lemma_heap_root(s0, k);
            }
            lemma_least(s0.to_multiset(), e);
        }
        let last = self.items.pop().unwrap();
        if n == 1 {
            assert(old(self).items@.to_multiset().remove(e) =~= self.items@.to_multiset()) by {
                assert(old(self).items@ =~= self.items@.push(last));
            }
            return Some(e);
        }
        let ghost popped = self.items@;
        assert(old(self).items@ =~= popped.push(last));
        self.items.set(0, last);
        assert(self.items@.to_multiset() =~= old(self).items@.to_multiset().remove(e)) by {
            assert(self.items@ == popped.update(0, last));
            assert(popped[0] == e);
        }
        let m = self.items.len();
        let mut i: usize = 0;
        assert(heap_but(self.items@, 0)) by {
            assert forall|j: int| 0 < j < m && (j - 1) / 2 != 0 implies le_entry(self.items@[(j - 1) / 2], #[trigger] self.items@[j]) by {
                assert(self.items@[j] == popped[j] && self.items@[(j - 1) / 2] == popped[(j - 1) / 2]);
                assert(old(self).items@[j] == popped[j] && old(self).items@[(j - 1) / 2] == popped[(j - 1) / 2]);
            }
        }
        loop
            invariant
                m == self.items@.len(),
                m >= 1,
                i < m,
                self.items@.to_multiset() == old(self).items@.to_multiset().remove(e),
                heap_but(self.items@, i as int),
            ensures
                heap_ok(self.items@),
                self.items@.to_multiset() == old(self).items@.to_multiset().remove(e),
            decreases m - i,
        {
            if i >= m / 2 {
                assert forall|j: int| 0 < j < m implies le_entry(self.items@[(j - 1) / 2], #[trigger] self.items@[j]) by {
                    assert((j - 1) / 2 != i);
                }
                break;
            }
            let l = 2 * i + 1;
            let r = l + 1;
            let mut c = l;
            if r < m {
                let (lt, ls) = self.items[l];
                let (rt, rs) = self.items[r];
                if rt < lt || (rt == lt && rs < ls) {
                    c = r;
                }
            }
            assert forall|k: int| 0 < k < m && (k - 1) / 2 == i implies le_entry(self.items@[c as int], #[trigger] self.items@[k]) by {
                assert(k == l || k == r);
            }
            let a = self.items[i];
            let b = self.items[c];
            if a.0 < b.0 || (a.0 == b.0 && a.1 <= b.1) {
                assert forall|j: int| 0 < j < m implies le_entry(self.items@[(j - 1) / 2], #[trigger] self.items@[j]) by {
                    if (j - 1) / 2 == i {
                        assert(le_entry(self.items@[c as int], self.items@[j]));
                    }
                }
                break;
            }
            let ghost before = self.items@;
            self.items.set(c, a);
            self.items.set(i, b);
            proof {
                assert(self.items@ == before.update(c as int, before[i as int]).update(i as int, before[c as int]));
                lemma_swap_multiset(before, c as int, i as int);
                lemma_sift_down_step(before, i as int, c as int);
            }
            i = c;
        }
        Some(e)
    }
}

/// The search invariant over the parts of the state: `floor` is the time of
/// the entry visited last, and `except` a station whose entry was just taken
/// off the queue `q`.
#[verifier::opaque]
spec fn search_inv(g: Seq<TGNode>, labels: Seq<BestJourney>, ranks: Seq<nat>, counter: nat, q: Multiset<(u32, usize)>,
    o: int, c: u32, f: u32, floor: nat, except: int) -> bool {
    &&& graph_wf(g)
    &&& g.len() <= usize::MAX
    &&& labels.len() == g.len()
    &&& ranks.len() == g.len()
    &&& 0 <= o < g.len()
    &&& forall|v: int| 0 <= v < g.len() ==> #[trigger] label_ok(g, labels, ranks, o, c, f, v)
    &&& forall|v: int| 0 <= v < g.len() && v != o && labels[v].time < UNREACHED
        ==> labels[#[trigger] labels[v].last_station as int].time <= floor
    &&& forall|v: int| 0 <= v < g.len() ==> #[trigger] ranks[v] < counter
    &&& forall|x: (u32, usize)| #[trigger] q.contains(x) ==> x.1 < g.len() && x.0 >= labels[x.1 as int].time
        && x.0 >= floor && x.0 < UNREACHED
    &&& forall|u: int| 0 <= u < g.len() && u != except && (#[trigger] labels[u]).time < UNREACHED
        ==> q.contains((labels[u].time, u as usize)) || exhausted(g, labels, o, c, f, u)
}

/// The state at the start of a search keeps the invariant.
proof fn lemma_init(g: Seq<TGNode>, fresh: Seq<BestJourney>, labels: Seq<BestJourney>, ranks: Seq<nat>,
    q: Multiset<(u32, usize)>, o: int, c: u32, f: u32)
    requires
        graph_wf(g),
        g.len() <= usize::MAX,
        fresh.len() == g.len(),
        forall|v: int| 0 <= v < fresh.len() ==> is_unreached(#[trigger] fresh[v]),
        0 <= o < g.len(),
        labels == fresh.update(o, labels[o]),
        labels[o].time == 0,
        labels[o].last_station == o,
        labels[o].last_link == Link::Dummy,
        ranks == Seq::new(g.len(), |i: int| 0nat),
        q == Multiset::empty().insert((0u32, o as usize)),
    ensures
        search_inv(g, labels, ranks, 1, q, o, c, f, 0, -1),
{
    reveal(search_inv);
    assert forall|v: int| 0 <= v < g.len() implies #[trigger] label_ok(g, labels, ranks, o, c, f, v) by {
        if v != o {
            assert(labels[v] == fresh[v]);
        }
    }
    assert forall|x: (u32, usize)| #[trigger] q.contains(x) implies x.1 < g.len() && x.0 >= labels[x.1 as int].time
        && x.0 >= 0 && x.0 < UNREACHED by {
        assert(x == (0u32, o as usize));
    }
    assert forall|u: int| 0 <= u < g.len() && (#[trigger] labels[u]).time < UNREACHED
        implies q.contains((labels[u].time, u as usize)) || exhausted(g, labels, o, c, f, u) by {
        if u != o {
            assert(labels[u] == fresh[u]);
        } else {
            assert(q.contains((labels[u].time, u as usize)));
        }
    }
}

/// With the queue empty, the search is settled and its chains are well founded.
proof fn lemma_done(g: Seq<TGNode>, labels: Seq<BestJourney>, ranks: Seq<nat>, counter: nat, q: Multiset<(u32, usize)>,
    o: int, c: u32, f: u32, floor: nat)
    requires
        search_inv(g, labels, ranks, counter, q, o, c, f, floor, -1),
        q.len() == 0,
    ensures
        settled(g, labels, ranks, o, c, f),
        chains_ok(labels, ranks),
{
    reveal(search_inv);
    assert forall|u: int| 0 <= u < g.len() && (#[trigger] labels[u]).time < UNREACHED
        implies exhausted(g, labels, o, c, f, u) by {
        assert(!q.contains((labels[u].time, u as usize)));
    }
    assert forall|v: int| 0 <= v < labels.len() && (#[trigger] labels[v]).last_link != Link::Dummy implies {
        let p = labels[v].last_station as int;
        &&& 0 <= p < labels.len()
        &&& ranks[p] < ranks[v]
        &&& labels[p].time + link_time(labels[v].last_link) <= labels[v].time
    } by {
        assert(label_ok(g, labels, ranks, o, c, f, v));
    }
}

/// Taking the least entry `e` off the queue keeps the invariant, with the
/// entry's time as the new floor; where the entry is current, its station is
/// left to be visited.
proof fn lemma_pop(g: Seq<TGNode>, labels: Seq<BestJourney>, ranks: Seq<nat>, counter: nat, q0: Multiset<(u32, usize)>,
    q1: Multiset<(u32, usize)>, o: int, c: u32, f: u32, floor: nat, e: (u32, usize))
    requires
        search_inv(g, labels, ranks, counter, q0, o, c, f, floor, -1),
        q0.contains(e),
        forall|x: (u32, usize)| #[trigger] q1.contains(x) ==> q0.contains(x),
        forall|x: (u32, usize)| #[trigger] q0.contains(x) && x != e ==> q1.contains(x),
        forall|x: (u32, usize)| #[trigger] q0.contains(x) ==> le_entry(e, x),
    ensures
        e.1 < g.len(),
        labels.len() == g.len(),
        e.0 >= labels[e.1 as int].time,
        e.0 >= floor,
        e.0 < UNREACHED,
        e.0 == labels[e.1 as int].time ==> search_inv(g, labels, ranks, counter, q1, o, c, f, e.0 as nat, e.1 as int),
        e.0 != labels[e.1 as int].time ==> search_inv(g, labels, ranks, counter, q1, o, c, f, e.0 as nat, -1),
{
    reveal(search_inv);
    let except = if e.0 == labels[e.1 as int].time { e.1 as int } else { -1 };
    assert forall|v: int| 0 <= v < g.len() && v != o && labels[v].time < UNREACHED
        implies labels[#[trigger] labels[v].last_station as int].time <= e.0 by {}
    assert forall|x: (u32, usize)| #[trigger] q1.contains(x) implies x.1 < g.len() && x.0 >= labels[x.1 as int].time
        && x.0 >= e.0 && x.0 < UNREACHED by {
        assert(q0.contains(x));
    }
    assert forall|u: int| 0 <= u < g.len() && u != except && (#[trigger] labels[u]).time < UNREACHED
        implies q1.contains((labels[u].time, u as usize)) || exhausted(g, labels, o, c, f, u) by {
        if (labels[u].time, u as usize) == e {
            assert(e.1 as int == u);
            assert(except == u);
        }
        if q0.contains((labels[u].time, u as usize)) {
            if (labels[u].time, u as usize) != e {
                assert(q1.contains((labels[u].time, u as usize)));
            }
        }
    }
}

/// The search state of one query: a best journey per station and the queue
/// of stations to visit.
pub struct TimeDijkstras {
    visitq: VisitQueue,
    contingency: u32,
    nodes: Vec<BestJourney>,
    origin: StationId,
    flexi_depart: u32,
    ranks: Ghost<Seq<nat>>,
    counter: Ghost<nat>,
}

impl TimeDijkstras {
    /// The best journeys found, per station.
    pub closed spec fn labels(&self) -> Seq<BestJourney> {
        self.nodes@
    }

    /// The order in which the best journeys were last improved.
    pub closed spec fn ranks(&self) -> Seq<nat> {
        self.ranks@
    }

    /// The seconds added on each change of service.
    pub closed spec fn contingency_spec(&self) -> u32 {
        self.contingency
    }

    /// Whether no station has been reached yet.
    pub open spec fn fresh(&self) -> bool {
        forall|v: int| 0 <= v < self.labels().len() ==> is_unreached(#[trigger] self.labels()[v])
    }

    /// A search state for `station_count` stations, none reached, with
    /// `contingency` seconds added on each change of service.
    pub fn new(station_count: usize, contingency: u32) -> (r: Self)
        ensures
            r.labels().len() == station_count,
            r.labels() == Seq::new(station_count as nat, |i: int| unreached_label()),
            r.fresh(),
            r.contingency_spec() == contingency,
    {
        let init = BestJourney { time: UNREACHED, depart: RailTime::new(0, 0), last_station: 0, last_link: Link::Dummy };
        let mut nodes: Vec<BestJourney> = Vec::new();
        let mut i: usize = 0;
        while i < station_count
            invariant
                i <= station_count,
                nodes@.len() == i,
                is_unreached(init),
                forall|v: int| 0 <= v < i ==> #[trigger] nodes@[v] == init,
            decreases station_count - i,
        {
            nodes.push(init);
            i = i + 1;
        }
        assert(init == unreached_label());
        assert(nodes@ =~= Seq::new(station_count as nat, |i: int| unreached_label()));
        TimeDijkstras {
            visitq: VisitQueue::new(),
            contingency,
            nodes,
            origin: 0,
            flexi_depart: 0,
            ranks: Ghost(Seq::new(station_count as nat, |i: int| 0nat)),
            counter: Ghost(1),
        }
    }

    /// The search invariant: `floor` is the time of the entry visited last,
    /// and `except` a station whose entry was just taken off the queue.
    closed spec fn inv(&self, g: Seq<TGNode>, floor: nat, except: int) -> bool {
        &&& self.visitq.wf()
        &&& search_inv(g, self.nodes@, self.ranks@, self.counter@, self.visitq@, self.origin as int, self.contingency,
            self.flexi_depart, floor, except)
    }

    /// Runs the search from `start_station` at clock time `start_time`: every
    /// best journey ends up justified by its predecessor, and no link of a
    /// reached station improves any of them.
    pub fn perform(&mut self, graph: &TravelGraph, start_station: StationId, start_time: RailTime, flexi_depart: u32)
        requires
            graph.wf(),
            start_station < graph.stations@.len(),
            old(self).labels().len() == graph.stations@.len(),
            old(self).labels() == Seq::new(graph.stations@.len(), |i: int| unreached_label()),
            old(self).fresh(),
        ensures
            final(self).labels() == search(graph.stations@, start_time, start_station as int, old(self).contingency_spec(), flexi_depart),
            settled(graph.stations@, final(self).labels(), final(self).ranks(), start_station as int,
                old(self).contingency_spec(), flexi_depart),
            chains_ok(final(self).labels(), final(self).ranks()),
            final(self).labels()[start_station as int].depart == start_time,
            final(self).contingency_spec() == old(self).contingency_spec(),
    {
        let ghost g = graph.stations@;
        proof {
            assert(g.len() <= usize::MAX) by {
                assert(graph.stations@.len() == graph.stations.len());
            }
        }
        self.visitq = VisitQueue::new();
        self.nodes.set(start_station, BestJourney { time: 0, depart: start_time, last_station: start_station, last_link: Link::Dummy });
        self.visitq.insert(0, start_station);
        self.origin = start_station;
        self.flexi_depart = flexi_depart;
        self.ranks = Ghost(Seq::new(g.len(), |i: int| 0nat));
        self.counter = Ghost(1);
        let ghost mut floor: nat = 0;
        assert(self.visitq@ =~= Multiset::empty().insert((0u32, start_station)));
        proof {
            lemma_init(g, old(self).nodes@, self.nodes@, self.ranks@, self.visitq@, start_station as int,
                self.contingency, flexi_depart);
        }
        let ghost init_labels = self.nodes@;
        let ghost init_q = self.visitq@;
        assert(run(g, init_labels, init_q, start_station as int, self.contingency, flexi_depart)
            == search(g, start_time, start_station as int, self.contingency, flexi_depart));
        loop
            invariant
                self.inv(g, floor, -1),
                g == graph.stations@,
                self.nodes@[start_station as int].depart == start_time,
                self.origin == start_station,
                self.flexi_depart == flexi_depart,
                self.contingency == old(self).contingency,
                run(g, init_labels, init_q, start_station as int, self.contingency, flexi_depart)
                    == run(g, self.nodes@, self.visitq@, start_station as int, self.contingency, flexi_depart),
            ensures
                run(g, init_labels, init_q, start_station as int, self.contingency, flexi_depart) == self.nodes@,
                settled(g, self.nodes@, self.ranks@, start_station as int, self.contingency, flexi_depart),
                chains_ok(self.nodes@, self.ranks@),
                self.nodes@[start_station as int].depart == start_time,
                self.contingency == old(self).contingency,
            decreases sum_times(self.nodes@), self.visitq@.len(),
        {
            let ghost q0 = self.visitq@;
            let ghost l0 = self.nodes@;
            let popped = self.visitq.pop_first();
            match popped {
                None => {
                    proof {
                        lemma_done(g, self.nodes@, self.ranks@, self.counter@, q0, self.origin as int,
                            self.contingency, self.flexi_depart, floor);
                    }
                    break;
                },
                Some(tovisit) => {
                    let (t, s) = tovisit;
                    proof {
                        lemma_pop(g, self.nodes@, self.ranks@, self.counter@, q0, self.visitq@, self.origin as int,
                            self.contingency, self.flexi_depart, floor, tovisit);
                        floor = t as nat;
                    }
                    if t <= self.nodes[s].time {
                        self.visit_next(graph, t, s, Ghost(floor));
                    }
                    assert((self.nodes@, self.visitq@) == step(g, l0, q0, start_station as int, self.contingency, flexi_depart));
                    assert(run(g, l0, q0, start_station as int, self.contingency, flexi_depart)
                        == run(g, self.nodes@, self.visitq@, start_station as int, self.contingency, flexi_depart));
                },
            }
        }
    }

    /// Visits station `s` taken off the queue at its best time `t`: takes the
    /// first of its links that improves a best journey, records it and queues
    /// both stations again; where none does, the station is done.
    fn visit_next(&mut self, graph: &TravelGraph, t: u32, s: usize, floor: Ghost<nat>)
        requires
            old(self).inv(graph.stations@, floor@, s as int),
            s < graph.stations@.len(),
            old(self).nodes@[s as int].time == t,
            t as nat == floor@,
            t < UNREACHED,
        ensures
            final(self).inv(graph.stations@, floor@, -1),
            final(self).origin == old(self).origin,
            final(self).flexi_depart == old(self).flexi_depart,
            final(self).contingency == old(self).contingency,
            final(self).nodes@[final(self).origin as int] == old(self).nodes@[old(self).origin as int],
            sum_times(final(self).nodes@) < sum_times(old(self).nodes@) || (sum_times(final(self).nodes@)
                == sum_times(old(self).nodes@) && final(self).visitq@.len() == old(self).visitq@.len()),
            (final(self).nodes@, final(self).visitq@) == visit(graph.stations@, old(self).nodes@, old(self).visitq@,
                old(self).origin as int, old(self).contingency, old(self).flexi_depart, s as int, t),
    {
        reveal(search_inv);
        let ghost g = graph.stations@;
        let node = &graph.stations[s];
        let cur = self.nodes[s];
        let curtime = cur.depart;
        let lastlink = cur.last_link;
        let xfer = node.transfer_time;
        let at_origin = s == self.origin;
        let mut k: usize = 0;
        while k < node.links.len()
            invariant
                self.inv(g, floor@, s as int),
                g == graph.stations@,
                graph_wf(g),
                self.nodes@.len() == g.len(),
                *self == *old(self),
                self.nodes@[s as int].time == t,
                t as nat == floor@,
                t < UNREACHED,
                *node == g[s as int],
                s < g.len(),
                cur == self.nodes@[s as int],
                xfer == g[s as int].transfer_time,
                at_origin == (s == self.origin),
                k <= node.links@.len(),
                forall|j: int| 0 <= j < k ==> !improves(g, self.nodes@, self.origin as int, self.contingency,
                    self.flexi_depart, s as int, #[trigger] node.links@[j]),
                first_improving(g, self.nodes@, self.origin as int, self.contingency, self.flexi_depart, s as int, 0)
                    == first_improving(g, self.nodes@, self.origin as int, self.contingency, self.flexi_depart, s as int, k as int),
            decreases node.links@.len() - k,
        {
            let link = node.links[k];
            assert(g[s as int].links@[k as int] == link);
            assert(link_in_range(link, g.len() as int));
            let cand = self.relax(graph, s, t, k);
            match cand {
                Some((dst_time, dst, dst_clock)) => {
                    assert(dst_time == relax_from(g, self.nodes@, self.origin as int, self.contingency, self.flexi_depart, s as int, link));
                    assert(dst_clock@ == relax_clock(cur, link));
                    assert(dst as int == link_dst(link));
                    if dst_time < self.nodes[dst].time as u64 {
                        assert(improves(g, self.nodes@, self.origin as int, self.contingency, self.flexi_depart, s as int, link));
                        self.update_best(graph, s, t, k, dst, dst_time as u32, dst_clock, floor);
                        return;
                    }
                },
                None => {},
            }
            k = k + 1;
        }
        assert(exhausted(g, self.nodes@, self.origin as int, self.contingency, self.flexi_depart, s as int));
        assert(first_improving(g, self.nodes@, self.origin as int, self.contingency, self.flexi_depart, s as int, k as int) is None);
    }

    /// The total time, end station and clock time of taking link `k` of
    /// station `s`, reached at total time `t`; `None` for a journey marker.
    fn relax(&self, graph: &TravelGraph, s: usize, t: u32, k: usize) -> (r: Option<(u64, StationId, RailTime)>)
        requires
            s < graph.stations@.len(),
            s < self.nodes@.len(),
            k < graph.stations@[s as int].links@.len(),
            self.nodes@[s as int].time == t,
        ensures
            ({
                let g = graph.stations@;
                let l = g[s as int].links@[k as int];
                match r {
                    Some((time, dst, clock)) => l != Link::Dummy && dst as int == link_dst(l)
                        && time == relax_from(g, self.nodes@, self.origin as int, self.contingency, self.flexi_depart, s as int, l)
                        && clock@ == relax_clock(self.nodes@[s as int], l) && clock == RailTime::spec_at(clock@),
                    None => l == Link::Dummy,
                }
            }),
    {
        let link = graph.stations[s].links[k];
        let cur = self.nodes[s];
        let curtime = cur.depart;
        match link {
            Link::Rail(rl) => {
                let change: u64 = if cur.last_link.ischange(&link) {
                    graph.stations[s].transfer_time as u64 + self.contingency as u64
                } else {
                    0
                };
                let wait: u64 = if s == self.origin && curtime.timetil(&rl.depart) < self.flexi_depart {
                    0
                } else {
                    let ready = curtime.add((change % 86400) as u32);
                    proof {
                        vstd::arithmetic::div_mod::lemma_add_mod_noop_right(curtime@ as int, change as int, 86400);
                    }
                    change + ready.timetil(&rl.depart) as u64
                };
                Some((t as u64 + wait + rl.time as u64, rl.dst, rl.depart.add(rl.time)))
            },
            Link::Fixed(fl) => Some((t as u64 + fl.time as u64, fl.dst, curtime.add(fl.time))),
            Link::Dummy => None,
        }
    }

    /// Records that taking link `k` of station `s` reaches `dst` at total time
    /// `time` and clock time `depart`, and queues both stations.
    fn update_best(&mut self, graph: &TravelGraph, s: usize, t: u32, k: usize, dst: usize, time: u32, depart: RailTime, floor: Ghost<nat>)
        requires
            old(self).inv(graph.stations@, floor@, s as int),
            s < graph.stations@.len(),
            k < graph.stations@[s as int].links@.len(),
            old(self).nodes@[s as int].time == t,
            t as nat == floor@,
            t < UNREACHED,
            ({
                let g = graph.stations@;
                let l = g[s as int].links@[k as int];
                let o = old(self);
                &&& l != Link::Dummy
                &&& dst as int == link_dst(l)
                &&& time as nat == relax_from(g, o.nodes@, o.origin as int, o.contingency, o.flexi_depart, s as int, l)
                &&& depart@ == relax_clock(o.nodes@[s as int], l)
                &&& time < o.nodes@[dst as int].time
            }),
        ensures
            final(self).inv(graph.stations@, floor@, -1),
            final(self).origin == old(self).origin,
            final(self).flexi_depart == old(self).flexi_depart,
            final(self).contingency == old(self).contingency,
            final(self).nodes@[final(self).origin as int] == old(self).nodes@[old(self).origin as int],
            sum_times(final(self).nodes@) < sum_times(old(self).nodes@),
            final(self).nodes@ == old(self).nodes@.update(dst as int, BestJourney { time, depart, last_station: s,
                last_link: graph.stations@[s as int].links@[k as int] }),
            final(self).visitq@ == old(self).visitq@.insert((t, s)).insert((time, dst)),
    {
        reveal(search_inv);
        let ghost g = graph.stations@;
        let ghost old_labels = self.nodes@;
        let link = graph.stations[s].links[k];
        assert(link_in_range(link, g.len() as int));
        proof {
            assert(label_ok(g, old_labels, self.ranks@, self.origin as int, self.contingency, self.flexi_depart, dst as int));
            assert(relax_from(g, old_labels, self.origin as int, self.contingency, self.flexi_depart, s as int, link) >= t);
            lemma_sum_times_update(old_labels, dst as int,
                BestJourney { time, depart, last_station: s, last_link: link });
            assert(g[s as int].links@.contains(link));
        }
        self.nodes.set(dst, BestJourney { time, depart, last_station: s, last_link: link });
        self.ranks = Ghost(self.ranks@.update(dst as int, self.counter@));
        self.counter = Ghost(self.counter@ + 1);
        self.visitq.insert(t, s);
        self.visitq.insert(time, dst);
        proof {
            let labels = self.nodes@;
            let ranks = self.ranks@;
            let q = self.visitq@;
            let o = self.origin as int;
            let c = self.contingency;
            let f = self.flexi_depart;
            assert(dst != o);
            assert(s != dst);
            assert(old_labels[dst as int].time > floor@);
            assert(labels[dst as int].last_station == s);
            assert forall|v: int| 0 <= v < g.len() implies label_ok(g, labels, ranks, o, c, f, v) by {
                assert(label_ok(g, old_labels, old(self).ranks@, o, c, f, v));
                if v != dst && v != o && labels[v].time < UNREACHED {
                    assert(labels[v] == old_labels[v]);
                    assert(old_labels[old_labels[v].last_station as int].time <= floor@);
                    let p = labels[v].last_station as int;
                    assert(p != dst);
                    assert(labels[p] == old_labels[p]);
                }
            }
            assert forall|v: int| 0 <= v < g.len() && v != o && labels[v].time < UNREACHED
                implies labels[#[trigger] labels[v].last_station as int].time <= floor@ by {
                if v != dst {
                    assert(label_ok(g, old_labels, old(self).ranks@, o, c, f, v));
                    assert(labels[v] == old_labels[v]);
                    assert(old_labels[old_labels[v].last_station as int].time <= floor@);
                    let p = labels[v].last_station as int;
                    assert(p != dst);
                    assert(labels[p] == old_labels[p]);
                }
            }
            assert forall|v: int| 0 <= v < g.len() implies #[trigger] ranks[v] < self.counter@ by {
                assert(old(self).ranks@[v] < old(self).counter@);
            }
            assert forall|x: (u32, usize)| #[trigger] q.contains(x) implies x.1 < g.len() && x.0 >= labels[x.1 as int].time
                && x.0 >= floor@ && x.0 < UNREACHED by {
                if x != (t, s) && x != (time, dst) {
                    assert(old(self).visitq@.contains(x));
                }
            }
            assert forall|u: int| 0 <= u < g.len() && (#[trigger] labels[u]).time < UNREACHED
                implies q.contains((labels[u].time, u as usize)) || exhausted(g, labels, o, c, f, u) by {
                if u == s as int {
                    assert(q.contains((t, s)));
                } else if u == dst as int {
                    assert(q.contains((time, dst)));
                } else {
                    let e = (labels[u].time, u as usize);
                    if old(self).visitq@.contains(e) {
                        assert(q.contains(e));
                    } else {
                        assert(exhausted(g, old_labels, o, c, f, u));
                        assert forall|j: int| 0 <= j < g[u].links@.len() implies !improves(g, labels, o, c, f, u,
                            #[trigger] g[u].links@[j]) by {
                            assert(!improves(g, old_labels, o, c, f, u, g[u].links@[j]));
                            assert(link_in_range(g[u].links@[j], g.len() as int));
                        }
                    }
                }
            }
        }
    }

    /// The best journey to `destination`, read back along the predecessors,
    /// with consecutive rail links of one service joined.
    pub fn best_journey(&self, destination: StationId) -> (r: Journey)
        requires
            chains_ok(self.labels(), self.ranks()),
            destination < self.labels().len(),
        ensures
            is_journey_to(r, self.labels(), self.ranks(), destination as int),
    {
        let ghost labels = self.nodes@;
        let ghost ranks = self.ranks@;
        let ghost d = destination as int;
        let mut links: Vec<Link> = Vec::new();
        let mut cur: usize = destination;
        let mut best = self.nodes[destination];
        let mut depart = best.depart;
        let time = best.time;
        let ghost mut suffix: Seq<Link> = Seq::empty();
        while !best.last_link.is_dummy()
            invariant
                chains_ok(labels, ranks),
                labels == self.nodes@,
                ranks == self.ranks@,
                0 <= d < labels.len(),
                cur < labels.len(),
                best == labels[cur as int],
                time == labels[d].time,
                labels[cur as int].time <= labels[d].time,
                chain_links(labels, ranks, d) == chain_links(labels, ranks, cur as int) + suffix,
                links@ == coalesce(suffix).reverse(),
                chain_start(labels, ranks, d) == chain_start(labels, ranks, cur as int),
                chain_depart(labels, ranks, d, labels[d].depart@) == chain_depart(labels, ranks, cur as int, depart@),
                links@.len() > 0 && links@.last() is Rail ==> links@.last()->Rail_0.time + labels[cur as int].time <= labels[d].time,
            decreases ranks[cur as int],
        {
            let link = best.last_link;
            let p = best.last_station;
            let ghost old_links = links@;
            assert(labels[p as int].time + link_time(link) <= labels[cur as int].time);
            let mut merged = false;
            match link {
                Link::Rail(rnext) => {
                    let n = links.len();
                    if n > 0 {
                        let last = links[n - 1];
                        match last {
                            Link::Rail(rlast) => {
                                if rlast.service == rnext.service {
                                    links.set(n - 1, Link::Rail(RailLink {
                                        dst: rlast.dst,
                                        service: rlast.service,
                                        depart: rnext.depart,
                                        time: rlast.time + rnext.time,
                                    }));
                                    merged = true;
                                }
                            },
                            _ => {},
                        }
                    }
                    depart = rnext.depart;
                },
                Link::Fixed(fl) => {
                    depart = depart.sub(fl.time);
                },
                Link::Dummy => {},
            }
            if !merged {
                links.push(link);
            }
            proof {
                let cs = coalesce(suffix);
                let ns = seq![link] + suffix;
                assert(ns.drop_first() =~= suffix);
                assert(coalesce(ns) == join_front(link, cs));
                if cs.len() > 0 {
                    assert(cs[0] == old_links.last());
                }
                assert(links@ =~= join_front(link, cs).reverse());
                assert(chain_links(labels, ranks, cur as int) == chain_links(labels, ranks, p as int).push(link));
                assert(chain_links(labels, ranks, d) =~= chain_links(labels, ranks, p as int) + ns);
                suffix = ns;
            }
            cur = p;
            best = self.nodes[p];
        }
        let mut forward: Vec<Link> = Vec::new();
        let mut i: usize = links.len();
        while i > 0
            invariant
                i <= links@.len(),
                forward@ == links@.subrange(i as int, links@.len() as int).reverse(),
            decreases i,
        {
            i = i - 1;
            assert(links@.subrange(i as int, links@.len() as int) =~= seq![links@[i as int]] + links@.subrange(i + 1, links@.len() as int));
            forward.push(links[i]);
            assert(forward@ =~= links@.subrange(i as int, links@.len() as int).reverse());
        }
        assert(links@.subrange(0, links@.len() as int) =~= links@);
        assert(forward@ =~= coalesce(suffix));
        Journey { origin: best.last_station, depart, time, links: forward }
    }
}

} // verus!
