use std::collections::HashSet;
use raildata::dijkstras::{TimeDijkstras, VisitQueue};
use raildata::fixed_links::{parse_fixed_links, parse_link_line, FixedLink, FixedLinkKind};
use raildata::record_parsing::{parse_i32, parse_u32, ErrorKind, ErrorReason};
use raildata::stations::{Station, StationList};
use raildata::timetable::{RailTime, Service, Stop, Timetable};
use raildata::travel_graph::{Link, TGNode, TravelGraph};
use raildata::load_services;

fn three_stations() -> StationList {
    StationList::new(vec![
        Station::simple("CAMBDGE", "Cambridge", "ABC"),
        Station::simple("KINGSX", "London Kings Cross", "DEF"),
        Station::simple("FOO", "FooBar", "XYZ"),
    ])
}

#[test]
fn railtime_text_round_trips_for_every_minute() {
    for h in 0..24u32 {
        for m in 0..60u32 {
            let text = format!("{:02}{:02}", h, m);
            let t = RailTime::from_24h(&text).unwrap();
            assert_eq!(t.to_24h(), text);
            assert_eq!(t.secs(), h * 3600 + m * 60);
        }
    }
}

#[test]
fn railtime_rejects_malformed_text() {
    assert_eq!(RailTime::from_24h("123"), None);
    assert_eq!(RailTime::from_24h("12a4"), None);
    assert_eq!(RailTime::from_24h("1234\n"), None);
    assert_eq!(RailTime::from_24h("123456"), None);
    assert_eq!(RailTime::from_24h(""), None);
    assert_eq!(RailTime::from_24h("1234H"), Some(RailTime::new(12, 34)));
}

#[test]
fn railtime_timetil_of_add_is_the_offset() {
    let starts = [0u32, 1, 3599, 43200, 86399];
    let offsets = [0u32, 1, 60, 3600, 50000, 86399];
    for s in starts {
        let t = RailTime::from_secs(s);
        for k in offsets {
            assert_eq!(t.timetil(&t.add(k)), k);
        }
    }
}

#[test]
fn railtime_add_and_sub_wrap_around_midnight() {
    let t = RailTime::new(23, 50);
    assert_eq!(t.add(20 * 60), RailTime::new(0, 10));
    assert_eq!(RailTime::new(0, 10).sub(20 * 60), RailTime::new(23, 50));
    assert_eq!(RailTime::new(0, 10).sub(86400 + 60), RailTime::new(0, 9));
    assert_eq!(RailTime::new(25, 0), RailTime::new(1, 0));
    assert_eq!(RailTime::new(0, 0).timetil(&RailTime::new(0, 0)), 0);
    assert_eq!(RailTime::new(1, 0).timetil(&RailTime::new(0, 0)), 23 * 3600);
}

#[test]
fn number_fields_parse_like_std() {
    assert_eq!(parse_u32("4"), Some(4));
    assert_eq!(parse_u32("+15"), Some(15));
    assert_eq!(parse_u32("4294967295"), Some(u32::MAX));
    assert_eq!(parse_u32("4294967296"), None);
    assert_eq!(parse_u32(""), None);
    assert_eq!(parse_u32("-1"), None);
    assert_eq!(parse_i32("-2147483648"), Some(i32::MIN));
    assert_eq!(parse_i32("2147483648"), None);
    assert_eq!(parse_i32("5473"), Some(5473));
}

#[test]
fn fixed_link_line_with_two_spaces_before_minutes() {
    let line = "ADDITIONAL LINK: FERRY BETWEEN ABC AND DEF IN  25 MINUTES";
    let (kind, a, b, mins) = parse_link_line(line).unwrap();
    assert_eq!(kind, FixedLinkKind::Ferry);
    assert_eq!((a, b, mins), ("ABC", "DEF", "25"));
    let links = parse_fixed_links(&three_stations(), line).unwrap();
    assert_eq!(links, vec![FixedLink { a: 0, b: 1, time: 1500, kind: FixedLinkKind::Ferry }]);
}

#[test]
fn fixed_link_lines_that_do_not_match_are_skipped() {
    assert!(parse_link_line("ADDITIONAL LINK: FERRY BETWEEN ABC AND DEF IN25 MINUTES").is_none());
    assert!(parse_link_line("ADDITIONAL LINK: HORSE BETWEEN ABC AND DEF IN 25 MINUTES").is_none());
    assert!(parse_link_line("ADDITIONAL LINK: WALK BETWEEN abc AND DEF IN 25 MINUTES").is_none());
    assert!(parse_link_line("ADDITIONAL LINK: WALK BETWEEN ABC AND DEF IN 25 MINUTES x").is_none());
    let text = "header\n\nADDITIONAL LINK: WALK BETWEEN XYZ AND ABC IN 3 MINUTES\r\nrubbish";
    let links = parse_fixed_links(&three_stations(), text).unwrap();
    assert_eq!(links, vec![FixedLink { a: 2, b: 0, time: 180, kind: FixedLinkKind::Walk }]);
}

#[test]
fn fixed_link_to_unknown_station_is_an_error() {
    let text = "x\nADDITIONAL LINK: BUS BETWEEN ABC AND QQQ IN 5 MINUTES\n";
    let err = parse_fixed_links(&three_stations(), text).unwrap_err();
    assert_eq!(err.kind, ErrorKind::InvalidData);
    assert_eq!(err.line, 2);
    assert_eq!(err.reason, ErrorReason::UnknownStation { key: "QQQ".to_string() });
}

#[test]
fn alias_of_unknown_station_is_an_error() {
    let msn = "A   header\nL    NOWHERE                        SOMEWHERE                                     \n";
    let err = StationList::read_msn_file(msn).unwrap_err();
    assert_eq!(err.kind, ErrorKind::InvalidData);
    assert_eq!(err.line, 2);
}

#[test]
fn short_station_record_reports_its_line() {
    let msn = "A   header\nA    ABBEY WOOD MTR                9ABWDXR ABX   ABW15473 617\n";
    let err = StationList::read_msn_file(msn).unwrap_err();
    assert_eq!(err.line, 2);
    assert!(matches!(err.reason, ErrorReason::RecordTooShort { .. }));
}

#[test]
fn bad_number_in_station_record_is_an_error() {
    let rec = "A    ABBEY WOOD MTR                9ABWDXR ABX   ABW15473 61790 x";
    let err = Station::from_msn_a_record(rec.to_string()).unwrap_err();
    assert_eq!(err.reason, ErrorReason::BadField { field: "min_change_time".to_string(), text: "x".to_string() });
}

#[test]
fn station_lookups_and_name_search() {
    let stations = three_stations();
    assert_eq!(stations.count(), 3);
    assert_eq!(stations.get_by_crs("DEF").unwrap().id, 1);
    assert!(stations.get_by_crs("QQQ").is_none());
    assert_eq!(stations.get_by_tiploc("FOO").unwrap().id, 2);
    assert_eq!(stations.get_by_name("Cambridge").unwrap().id, 0);
    assert!(stations.get(3).is_none());
    assert_eq!(stations.name_search("o"), HashSet::from([1, 2]));
    assert_eq!(stations.name_search("Cam"), HashSet::from([0]));
    assert!(stations.name_search("zzz").is_empty());
}

#[test]
fn service_ended_early_is_an_error() {
    let stations = three_stations();
    let mca = "BSNL221082005232012120000010 PXX1T25    121725000 EMU365 100D     B            P\n";
    let mut pos: usize = 0;
    let err = Service::read_service_entry(&stations, mca, &mut pos).unwrap_err();
    assert_eq!(err.kind, ErrorKind::UnexpectedEof);
    assert_eq!(err.line, 2);
    let mut pos: usize = 0;
    assert!(Service::read_service_entry(&stations, "", &mut pos).unwrap().is_none());
}

fn chain_graph() -> TravelGraph {
    // 0 -> 1 -> 2 on one service, and 0 -> 2 directly on another, slower one.
    TravelGraph {
        stations: vec![
            TGNode {
                links: vec![Link::simple_rail(1, 7, "0100", 10 * 60), Link::simple_rail(2, 8, "0100", 90 * 60)],
                transfer_time: 60,
            },
            TGNode { links: vec![Link::simple_rail(2, 7, "0115", 20 * 60)], transfer_time: 60 },
            TGNode { links: vec![], transfer_time: 60 },
        ],
    }
}

#[test]
fn consecutive_links_of_one_service_are_joined() {
    let graph = chain_graph();
    // Boarding at 01:00 after the 60 s interchange time at the origin.
    let journeys = graph.compute_journeys(RailTime::new(0, 50), 0, vec![2], 0, 0);
    assert_eq!(journeys[0].time, 45 * 60);
    assert_eq!(journeys[0].origin, 0);
    assert_eq!(journeys[0].depart, RailTime::new(1, 0));
    assert_eq!(journeys[0].links, vec![Link::simple_rail(2, 7, "0100", 30 * 60)]);
}

#[test]
fn identical_queries_give_identical_journeys() {
    let graph = chain_graph();
    let a = graph.compute_journeys(RailTime::new(0, 30), 0, vec![2, 1, 2, 0], 120, 600);
    let b = graph.compute_journeys(RailTime::new(0, 30), 0, vec![2, 1, 2, 0], 120, 600);
    assert_eq!(a.len(), 4);
    for (x, y) in a.iter().zip(b.iter()) {
        assert_eq!(x.origin, y.origin);
        assert_eq!(x.depart, y.depart);
        assert_eq!(x.time, y.time);
        assert_eq!(x.links, y.links);
    }
    assert_eq!(a[0].time, a[2].time);
    assert_eq!(a[3].time, 0);
    assert!(a[3].links.is_empty());
}

#[test]
fn best_time_is_no_more_than_another_path() {
    let graph = chain_graph();
    let mut paths = TimeDijkstras::new(3, 0);
    paths.perform(&graph, 0, RailTime::new(0, 0), 0);
    // Direct service: wait 3600 s, ride 5400 s. Via station 1: 3600 + 600 wait + 300 + 1200.
    let j = paths.best_journey(2);
    assert!(j.time <= 3600 + 5400);
    assert_eq!(j.time, 3600 + 600 + 300 + 1200);
}

#[test]
fn graph_has_one_rail_link_per_stop_pair() {
    let stations = three_stations();
    let timetable = Timetable {
        services: vec![Service {
            id: 0,
            train_uid: "X".to_string(),
            stops: vec![Stop::simple(0, "2350", "2350"), Stop::simple(1, "0005", "0007"), Stop::simple(2, "0020", "0020")],
        }],
    };
    let fixed = vec![FixedLink { a: 2, b: 2, time: 60, kind: FixedLinkKind::Walk }];
    let graph = TravelGraph::new(&stations, &fixed, &timetable);
    assert_eq!(graph.stations[0].links, vec![Link::simple_rail(1, 0, "2350", 15 * 60)]);
    assert_eq!(graph.stations[1].links, vec![Link::simple_rail(2, 0, "0007", 13 * 60)]);
    assert_eq!(graph.stations[2].links, vec![
        Link::simple_fixed(2, 60, FixedLinkKind::Walk),
        Link::simple_fixed(2, 60, FixedLinkKind::Walk),
    ]);
    assert_eq!(graph.stat_edges(), (4, 1, 2));
}

#[test]
fn unreachable_destination_has_no_journey() {
    let graph = chain_graph();
    let journeys = graph.compute_journeys(RailTime::new(5, 0), 2, vec![0], 0, 0);
    assert_eq!(journeys[0].time, u32::MAX);
    assert!(journeys[0].links.is_empty());
    assert_eq!(journeys[0].depart, RailTime::new(0, 0));
}

#[test]
fn services_load_from_feeds() {
    let msn = "A   header\n\
A    CAMBRIDGE                     2CAMBDGECBG   CBG15462 62573 5                 \n\
A    LONDON KINGS CROSS            3KNGX   KGX   KGX15303 6183015                 \n";
    let flf = "ADDITIONAL LINK: WALK BETWEEN CBG AND KGX IN 90 MINUTES\n";
    let mca = "BSNL221082005232012120000010 PXX1T25    121725000 EMU365 100D     B            P\n\
LOCAMBDGE 1000 10001         TB                                                 \n\
LTKNGX    1050 10506     TF                                                     \n";
    let rail = load_services(msn, flf, mca).unwrap();
    assert_eq!(rail.stations.count(), 2);
    assert_eq!(rail.fixedlinks.len(), 1);
    assert_eq!(rail.timetable.services.len(), 1);
    assert_eq!(rail.timetable.services[0].train_uid, "L22108");
    let journeys = rail.graph.compute_journeys(RailTime::new(9, 50), 0, vec![1], 0, 0);
    assert_eq!(journeys[0].time, 60 * 60);
    assert_eq!(journeys[0].links.len(), 1);
}

#[test]
fn tiploc_lookup_through_index_and_by_search() {
    let stations = StationList::new(vec![
        Station::simple("LONGTIPLOC", "Long", "LNG"),
        Station::simple("SHORT", "Short", "SHT"),
        Station::simple("SHORT", "Shadow", "SHD"),
    ]);
    assert_eq!(stations.get_by_tiploc("SHORT").unwrap().id, 1);
    assert_eq!(stations.get_by_tiploc("LONGTIPLOC").unwrap().id, 0);
    assert!(stations.get_by_tiploc("SHORTER").is_none());
    assert!(stations.get_by_tiploc("SHOR").is_none());
    assert!(stations.get_by_tiploc("").is_none());
    assert!(stations.get_by_tiploc("ÉCLAIR").is_none());
}

#[test]
fn merged_station_is_found_by_both_tiplocs() {
    let msn = "header line\n\
A                             FILE-SPEC=05 1.00 25/08/20 18.05.31   748           \n\
A    CAMBRIDGE NORTH               2CAMBNTHCMB   CMB15475 62607 5                 \n\
A    CAMBRIDGE NORTH Stand         9CMBNTSTCMB   CMB15475 62607 5                 \n\
A    CAMBRIDGE NORTH               9CMBNTHXCMB   CMB15475 62607 5                 \n";
    let stations = StationList::read_msn_file(msn).unwrap();
    assert_eq!(stations.count(), 1);
    assert_eq!(stations.get_by_tiploc("CMBNTST").unwrap().id, 0);
    assert_eq!(stations.get_by_tiploc("CMBNTHX").unwrap().id, 0);
    let st = stations.get(0).unwrap();
    assert_eq!(st.tiplocs, vec!["CAMBNTH", "CMBNTST", "CMBNTHX"]);
    assert_eq!(st.names, vec!["CAMBRIDGE NORTH", "CAMBRIDGE NORTH Stand"]);
}

#[test]
fn bad_time_in_schedule_is_an_error_on_its_line() {
    let stations = StationList::new(vec![Station::simple("CAMBDGE", "Cambridge", "CBG")]);
    let mca = "comment\n\
BSNL221082005232012120000010 PXX1T25    121725000 EMU365 100D     B            P\n\
LOCAMBDGE 1000 1x001         TB                                                 \n";
    let mut pos: usize = 0;
    let err = Service::read_service_entry(&stations, mca, &mut pos).unwrap_err();
    assert_eq!(err.kind, ErrorKind::InvalidData);
    assert_eq!(err.line, 3);
    assert_eq!(err.reason, ErrorReason::BadField { field: "public_departure".to_string(), text: "1x00".to_string() });
    assert!(Timetable::read_mca_file(&stations, mca).is_err());
}

#[test]
fn crs_lookup_through_index_and_by_search() {
    let stations = StationList::new(vec![
        Station::simple("AAA", "First", "ABC"),
        Station::simple("BBB", "Second", "ABC"),
        Station::simple("CCC", "Third", "LONGCODE9"),
    ]);
    assert_eq!(stations.get_by_crs("ABC").unwrap().id, 0);
    assert_eq!(stations.get_by_crs("LONGCODE9").unwrap().id, 2);
    assert!(stations.get_by_crs("AB").is_none());
    assert!(stations.get_by_crs("ABCD").is_none());
}

#[test]
fn visit_queue_pops_least_time_then_least_station() {
    let mut q = VisitQueue::new();
    let entries = [(50u32, 3usize), (10, 9), (50, 1), (0, 4), (10, 2), (99, 0), (10, 2), (7, 7)];
    for (t, s) in entries {
        q.insert(t, s);
    }
    let mut out = Vec::new();
    while let Some(e) = q.pop_first() {
        out.push(e);
    }
    let mut expected = entries.to_vec();
    expected.sort();
    assert_eq!(out, expected);
    assert_eq!(q.pop_first(), None);
}

#[test]
fn name_lookup_with_shared_prefixes() {
    let stations = StationList::new(vec![
        Station::simple("CAMBDGE", "CAMBRIDGE", "CBG"),
        Station::simple("CAMBNTH", "CAMBRIDGE NORTH", "CMB"),
        Station::simple("CAMBHTH", "CAMBRIDGE HEATH", "CBH"),
        Station::simple("ZURICH", "ZÜRICH", "ZRH"),
        Station::simple("AB", "AB", "ABX"),
    ]);
    assert_eq!(stations.get_by_name("CAMBRIDGE NORTH").unwrap().id, 1);
    assert_eq!(stations.get_by_name("CAMBRIDGE HEATH").unwrap().id, 2);
    assert_eq!(stations.get_by_name("CAMBRIDGE").unwrap().id, 0);
    assert!(stations.get_by_name("CAMBRID").is_none());
    assert_eq!(stations.get_by_name("ZÜRICH").unwrap().id, 3);
    assert_eq!(stations.get_by_name("AB").unwrap().id, 4);
    assert!(stations.get_by_name("A").is_none());
}
