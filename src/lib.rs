//! Earliest-arrival journey planning over a rail timetable.
//!
//! The library reads three feeds (stations, fixed links, schedules), builds a
//! time-annotated travel graph from them, and answers multi-destination
//! earliest-arrival queries over it.
use vstd::prelude::*;

pub mod record_parsing;
pub mod utils;
pub mod lines;
pub mod stations;
pub mod timetable;
pub mod fixed_links;
pub mod travel_graph;
pub mod dijkstras;

pub use stations::{Station, StationList, StationId};
pub use fixed_links::FixedLinkKind;
pub use timetable::{Timetable, RailTime, Service, ServiceId};
pub use travel_graph::{Journey, TravelGraph, Link};
pub use record_parsing::{RailError, ErrorKind, ErrorReason};
use stations::{msn_fold, models, ids_match};
use lines::text_lines;
use fixed_links::{links_of_lines, link_error_reason};
use timetable::{scan_timetable, timetable_fault, fault_error};

verus! {

/// The loaded data set: stations, fixed links, timetable and travel graph.
pub struct RailServices {
    pub stations: StationList,
    pub fixedlinks: Vec<fixed_links::FixedLink>,
    pub timetable: Timetable,
    pub graph: TravelGraph,
}

/// Reads the station, fixed-link and schedule feeds, given as text, and
/// builds the travel graph over them.
pub fn load_services(msn: &str, flf: &str, mca: &str) -> (r: Result<RailServices, RailError>)
    requires
        msn.is_ascii(),
        flf.is_ascii(),
        mca.is_ascii(),
    ensures
        r matches Err(e) ==> (msn_fold(text_lines(msn@)) == Err::<(Seq<stations::StationModel>, bool), int>(e.line as int)
            && e.kind == ErrorKind::InvalidData) || (msn_fold(text_lines(msn@)) matches Ok((ms, _))
            && exists|st: Seq<Station>| models(st) == ms && ids_match(st) && (
                (links_of_lines(st, text_lines(flf@)) == Err::<Seq<fixed_links::FixedLink>, int>(e.line as int)
                    && e.kind == ErrorKind::InvalidData && 1 <= e.line <= text_lines(flf@).len()
                    && link_error_reason(st, text_lines(flf@)[e.line - 1], e.reason))
                || (links_of_lines(st, text_lines(flf@)) is Ok && scan_timetable(st, mca@, 0, Seq::empty()) is None
                    && (timetable_fault(st, mca@, 0, Seq::empty()) matches Some(fault) && fault_error(mca@, fault, e))))),
        r matches Ok(rs) ==> {
            &&& msn_fold(text_lines(msn@)) matches Ok((ms, _)) && ms == models(rs.stations@)
            &&& links_of_lines(rs.stations@, text_lines(flf@)) == Ok::<Seq<fixed_links::FixedLink>, int>(rs.fixedlinks@)
            &&& scan_timetable(rs.stations@, mca@, 0, Seq::empty()) == Some(timetable::services_model(rs.timetable.services@))
            &&& rs.stations.wf()
            &&& rs.stations.all_ascii()
            &&& rs.stations.crs_unique()
            &&& rs.graph.wf()
            &&& rs.graph.stations@.len() == rs.stations@.len()
            &&& forall|i: int| 0 <= i < rs.stations@.len() ==> (#[trigger] rs.graph.stations@[i]).transfer_time
                == rs.stations@[i].min_change_time && rs.graph.stations@[i].links@
                == travel_graph::fixed_links_of(rs.fixedlinks@, i) + travel_graph::rail_links_of(rs.timetable.services@, i)
        },
{
    let stations = StationList::read_msn_file(msn)?;
    let fixedlinks = fixed_links::parse_fixed_links(&stations, flf)?;
    let timetable = Timetable::read_mca_file(&stations, mca)?;
    let graph = TravelGraph::new(&stations, &fixedlinks, &timetable);
    Ok(RailServices { stations, fixedlinks, timetable, graph })
}

} // verus!
