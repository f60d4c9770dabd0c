use raildata::dijkstras;
use raildata::fixed_links;
use raildata::fixed_links::FixedLinkKind;
use raildata::stations::{Station, StationList};
use raildata::timetable::{RailTime, Service, Stop, Timetable};
use raildata::travel_graph::{Link, TGNode, TravelGraph};

#[test]
fn test_simple_graph() {
    // Construct a simple two-way service
    let stations = StationList::new(vec![
        Station::simple("CAMBDGE", "Cambridge", "CBG"),
        Station::simple("KINGSX", "London Kings Cross", "KGX")
    ]);
    
    let fixedlinks = vec![
        fixed_links::FixedLink {
            a: 0,
            b: 1,
            time: 5*60,
            kind: FixedLinkKind::Bus
        }
    ];

    let timetable = Timetable {
        services: vec![
            Service {
                id: 0,
                train_uid: "OUTBOUND".to_string(),
                stops: vec![
                    Stop::simple(0, "0000", "0000"),
                    Stop::simple(1, "0100", "0100")
                ]
            },
            Service {
                id: 1,
                train_uid: "INBOUND".to_string(),
                stops: vec![
                    Stop::simple(1, "0110", "0110"),
                    Stop::simple(0, "0215", "0215")
                ]
            }
        ]
    };

    let graph = TravelGraph::new(&stations, &fixedlinks, &timetable);

    assert_eq!(graph, TravelGraph {
        stations: vec![
            TGNode {
                links: vec![
                    Link::simple_fixed(1, 5*60, FixedLinkKind::Bus),
                    Link::simple_rail(1, 0, "0000", 60*60)
                ],
                transfer_time: 0
            },
            TGNode {
                links: vec![
                    Link::simple_fixed(0, 5*60, FixedLinkKind::Bus),
                    Link::simple_rail(0, 1, "0110", 65*60)
                ],
                transfer_time: 0
            }
        ]
    });
}

#[test]
fn test_time_dijkstras() {
    // This simple graph example consists of 3 stations in a row, 0,1,2
    // Links:
    //  0 -> 2 : 0000 -> 0100 s=0
    //  0 -> 1 : 0130 -> 0205 s=1
    //  1 -> 2 : 0030 -> 0105 s=2
    //  1 -> 2 : 0130 -> 0205 s=4
    //  2 -> 1 : 0110 -> 0130 s=3
    //  1 -> 0 : 0130 -> 0145 s=3
    let graph = TravelGraph {
        stations: vec![
            TGNode {
                links: vec![
                    Link::simple_rail(2, 0, "0000", 60*60),
                    Link::simple_rail(1, 1, "0130", 35*60)
                ],
                transfer_time: 0
            },
            TGNode {
                links: vec![
                    Link::simple_rail(2, 2, "0030", 35*60),
                    Link::simple_rail(2, 4, "0130", 35*60),
                    Link::simple_rail(0, 3, "0130", 15*60)
                ],
                transfer_time: 0
            },
            TGNode {
                links: vec![
                    Link::simple_rail(1, 3, "0110", 20*60)
                ],
                transfer_time: 0
            }
        ]
    };

    let mut paths = dijkstras::TimeDijkstras::new(3, 0);
    paths.perform(&graph, 0, RailTime::new(0, 0), 0);

    let j1 = paths.best_journey(1);

    assert_eq!(j1.time, 90*60);
    let j2 = paths.best_journey(2);
    assert_eq!(j2.time, 60*60);

    // Try it from 2
    let journeys = graph.compute_journeys(RailTime::new(1, 0), 2, vec![0, 1], 0, 0);
    assert_eq!(journeys[1].time, 30*60);
    assert_eq!(journeys[0].time, 45*60);
}

#[test]
fn test_dijkstras_transfer() {
    // Transfer times test, three stations 0,1,2, with services:
    //  0 -> 1 : 0000 -> 0030 (~0)
    //  0 -> 2 : 0030 -> 0110 (~1)
    //  1 -> 2 : 0035 -> 0100 (~2)
    //  1 -> 2 : 0105 -> 0130 (~3)
    let graph = TravelGraph {
        stations: vec![
            TGNode {
                links: vec![
                    Link::simple_rail(1, 0, "0000", 30*60),
                    Link::simple_rail(2, 1, "0030", 40*60)
                ],
                transfer_time: 2*60
            },
            TGNode {
                links: vec![
                    Link::simple_rail(2, 2, "0035", 25*60),
                    Link::simple_rail(2, 3, "0105", 25*60)
                ],
                transfer_time: 2*60
            },
            TGNode {
                links: vec![],
                transfer_time: 2*60
            }
        ]
    };

    let journeys = graph.compute_journeys(RailTime::new(23, 50), 0, vec![1, 2], 0, 0);
    assert_eq!(journeys[0].time, 40*60);
    assert_eq!(journeys[1].time, 70*60);
    assert_eq!(journeys[1].links.len(), 2);

    let journeys = graph.compute_journeys(RailTime::new(23, 50), 0, vec![1, 2], 4*60, 0);
    assert_eq!(journeys[0].time, 40*60);
    assert_eq!(journeys[1].time, 80*60);
    assert_eq!(journeys[1].links.len(), 1);
        
    // Test that for unreachable nodes, we get u32::MAX
    // AND test that with a origin_time we allow flexi_depart we only count the time from departure
    let journeys = graph.compute_journeys(RailTime::new(0, 0), 1, vec![0, 2], 4*60, 60*60);
    assert_eq!(journeys[0].time, std::u32::MAX);
    assert_eq!(journeys[1].time, 25*60);
    assert_eq!(journeys[1].depart, RailTime::new(0, 35));
}

#[test]
fn test_fixed_link_graph() {
    // Transfer times test, three stations 0,1,2 with services:
    // 0 -> 2 : 0000 -> 0100 (~0)
    // 1 -> 2 : 0020 -> 0040 (~1)
    // 2 -> 1 : 0100 -> 0120 (~2)
    // And a walk between 0 and 1 of 10 mins
    let graph = TravelGraph {
        stations: vec![
            TGNode {
                links: vec![
                    Link::simple_rail(2, 0, "0000", 60*60),
                    Link::simple_fixed(1, 10*60, FixedLinkKind::Walk)
                ],
                transfer_time: 2*60
            },
            TGNode {
                links: vec![
                    Link::simple_rail(2, 1, "0020", 20*60),
                    Link::simple_fixed(0, 10*60, FixedLinkKind::Walk)
                ],
                transfer_time: 2*60
            },
            TGNode {
                links: vec![Link::simple_rail(1, 2, "0100", 20*60)],
                transfer_time: 2*60
            }
        ]
    };

    // From station 0
    let journeys = graph.compute_journeys(RailTime::new(0, 0), 0, vec![1, 2], 0, 0);
    assert_eq!(journeys[0].time, 10*60);
    assert_eq!(journeys[0].links, vec![Link::simple_fixed(1, 10*60, FixedLinkKind::Walk)]);
    assert_eq!(journeys[1].time, 40*60);
    assert_eq!(journeys[1].links, vec![
        Link::simple_fixed(1, 10*60, FixedLinkKind::Walk),
        Link::simple_rail(2, 1, "0020", 20*60)
    ]);

    // From station 2
    let journeys = graph.compute_journeys(RailTime::new(0, 0), 2, vec![0, 1], 0, 0);
    assert_eq!(journeys[0].time, 90*60);
    assert_eq!(journeys[0].links, vec![
        Link::simple_rail(1, 2, "0100", 20*60),
        Link::simple_fixed(0, 10*60, FixedLinkKind::Walk)
    ]);
    assert_eq!(journeys[1].time, 80*60);
    assert_eq!(journeys[1].links, vec![Link::simple_rail(1, 2, "0100", 20*60)]);
}
