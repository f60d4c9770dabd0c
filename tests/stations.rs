use raildata::stations::{Station, StationList};

#[test]
fn test_station_msn_parse() {
    let rec1 = "A    ABBEY WOOD MTR                9ABWDXR ABX   ABW15473 61790 4";
    let s = Station::from_msn_a_record(rec1.to_string()).unwrap();
    assert_eq!(s.tiplocs, vec!["ABWDXR"]);
    assert_eq!(s.crs_code, "ABW");
    assert_eq!(s.names, vec!["ABBEY WOOD MTR"]);
    assert_eq!(s.min_change_time, 4);
    assert_eq!(s.gref_east, 5473);
    assert_eq!(s.gref_north, 1790);

    let rec2 = "A    ABBEY WOOD MTR                9ABWDXR ABX   ABW15473 617";
    let s = Station::from_msn_a_record(rec2.to_string());
    s.expect_err("Record too short!");
}

#[test]
fn test_stations_read() {
    let msn = "/!! Start of file...
A                             FILE-SPEC=05 1.00 25/08/20 18.05.31   748           
A    ABBEY WOOD                    0ABWD   ABW   ABW15473 61790 4                         
A    ABERDARE                      0ABDARE ABA   ABA13004 62027 3                 
A    ABERDEEN                      2ABRDEENABD   ABD13942 68058 5                         
A    CAMBRIDGE NORTH               2CAMBNTHCMB   CMB15475 62607 5                 
A    CAMBRIDGE NORTH Stand         9CMBNTSTCMB   CMB15475 62607 5                 
L    ABERDARE                       ABAHDAR                                       
";
    
    let stations = StationList::read_msn_file(msn).unwrap();

    let abdare1 = stations.get_by_tiploc("ABDARE")
        .expect("Expected station with TIPLOC ABDARE");
    assert_eq!(abdare1.names, vec!["ABERDARE", "ABAHDAR"]);
    assert_eq!(abdare1.gref_north, 2027);

    let abdare2 = stations.get_by_name("ABAHDAR")
        .expect("Expected station with name ABAHDAR");
    assert_eq!(abdare1.names, vec!["ABERDARE", "ABAHDAR"]);
    assert_eq!(abdare2.gref_north, 2027);

    let abdare3 = stations.get_by_name("ABERDARE")
        .expect("Expected station with name ABERDARE");
    assert_eq!(abdare1.names, vec!["ABERDARE", "ABAHDAR"]);
    assert_eq!(abdare3.gref_north, 2027);

    let camnorth_id = stations.get_by_crs("CMB")
        .expect("Expected station with name CAMBRIDGE NORTH")
        .id;
    let camnorth = stations.get(camnorth_id).unwrap();
    assert_eq!(camnorth.names, vec!["CAMBRIDGE NORTH", "CAMBRIDGE NORTH Stand"]);
    assert_eq!(camnorth.tiplocs, vec!["CAMBNTH", "CMBNTST"]);
    assert_eq!(camnorth.crs_code, "CMB");
}
