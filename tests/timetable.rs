use raildata::stations::StationList;
use raildata::timetable::{RailTime, Service, Timetable};

#[test]
fn test_railtime() {
    assert_eq!(RailTime::from_24h("0025"), Some(RailTime::new(0, 25)));
    assert_eq!(RailTime::from_24h("2359"), Some(RailTime::new(23, 59)));

    let t1 = RailTime::from_24h("1325").unwrap();
    let t2 = RailTime::from_24h("1412").unwrap();
    assert_eq!(t1.timetil(&t2), 47*60);
    
    let t1 = RailTime::from_24h("2355").unwrap();
    let t2 = RailTime::from_24h("0020").unwrap();
    assert_eq!(t1.timetil(&t2), 25*60);
}

#[test]
fn test_service_parse() {
    let mca_file = "/!! Comment line!
BSNL221082005232012120000010 PXX1T25    121725000 EMU365 100D     B            P
BX         GNYGN161701                                                          
LOKLYNN   1045 10451         TB                                                 
LIWATLGTN 1052 1052H     105210521        T                                     
CRCAMBDGE XX1T25    121725000 EMU365 100D     B                    GN161703     
LICAMBDGE 1136H1144H     113711448        T -U                                  
LISTEVNGE           1211H000000002                      1                       
LTKNGX    1235 12356     TF                                                     
";
    let msn_file = "/!! Start of file
A                             FILE-SPEC=05 1.00 25/08/20 18.05.31   748           
A    KINGS LYNN                    1KLYNN  KLN   KLN15623 63201 5                 
A    WATLINGTON                    0WATLGTNWTG   WTG15612 63110 5                 
A    CAMBRIDGE                     2CAMBDGECBG   CBG15462 62573 5                 
A    STEVENAGE                     2STEVNGESVG   SVG15235 62238 4                 
A    LONDON KINGS CROSS            3KNGX   KGX   KGX15303 6183015                 
";
    
    let stations = StationList::read_msn_file(msn_file).unwrap();

    let mut mca_pos: usize = 0;

    let service = Service::read_service_entry(&stations, mca_file, &mut mca_pos).unwrap().unwrap();
    println!("service: {:?}", service);
    assert_eq!(service.train_uid, "L22108");
    assert_eq!(service.stops.len(), 4);
    assert_eq!(service.stops.get(2).unwrap().station, stations.get_by_name("CAMBRIDGE").unwrap().id);
    assert_eq!(service.stops.get(2).unwrap().departure.to_24h(), "1144");
}

#[test]
fn test_timetable() {
    let mca_file = "/!! Comment line!
BSNL221082005232012120000010 PXX1T25    121725000 EMU365 100D     B            P
BX         GNYGN161701                                                          
LOKLYNN   1045 10451         TB                                                 
LTKNGX    1235 12356     TF                                                     
BSNL221192005232012120000010 PXX1T30    121725000 EMU365 100D     B            P
BX         GNYGN162200                                                          
LOKNGX    1242 12429  B      TB                                                 
LTKLYNN   1431 14311     TF                                                     
";
    let msn_file = "/!! Start of file
A                             FILE-SPEC=05 1.00 25/08/20 18.05.31   748           
A    KINGS LYNN                    1KLYNN  KLN   KLN15623 63201 5                 
A    LONDON KINGS CROSS            3KNGX   KGX   KGX15303 6183015                 
";

    let stations = StationList::read_msn_file(msn_file).unwrap();

    let timetable = Timetable::read_mca_file(&stations, mca_file).unwrap();
    assert_eq!(timetable.services.len(), 2);
    assert_eq!(timetable.services[1].train_uid, "L22119");
    assert_eq!(timetable.services[1].stops.len(), 2);
}
