use raildata::fixed_links::{parse_fixed_links, FixedLink, FixedLinkKind};
use raildata::stations::{Station, StationList};

#[test]
fn test_fixed_links() {
    let example = "/!! Begin
ADDITIONAL LINK: FERRY BETWEEN ABC AND DEF IN  25 MINUTES  
ADDITIONAL LINK: TUBE BETWEEN DEF AND XYZ IN  45 MINUTES    ";

    let stations = StationList::new(vec![
        Station::simple("CAMBDGE", "Cambridge", "ABC"),
        Station::simple("KINGSX", "London Kings Cross", "DEF"),
        Station::simple("FOO", "FooBar", "XYZ")
    ]);

    let links = parse_fixed_links(&stations, example).unwrap();

    assert_eq!(links, vec![
        FixedLink {
            a: 0,
            b: 1,
            time: 25*60,
            kind: FixedLinkKind::Ferry
        },
        FixedLink {
            a: 1,
            b: 2,
            time: 45*60,
            kind: FixedLinkKind::Tube
        },
    ]);
}
