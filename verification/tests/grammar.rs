use lmap::joblist::{Job, JobEntry, JobList, Loc, Order};
use lmap::probe::{parse_rank, resolve_host, resolve_rank, select_numa};
use lmap::Error;

fn job(map: &str) -> Job {
    Job { map: map.to_string(), command: vec!["cmd".to_string()] }
}

#[test]
fn parse_fixed_with_loc() {
    let (ord, loc) = job("4numa").parse().unwrap();
    assert_eq!(ord, "4");
    assert_eq!(loc, Some(Loc::Numa));
}

#[test]
fn parse_each_with_loc() {
    let (ord, loc) = job("Enuma").parse().unwrap();
    assert_eq!(ord, "E");
    assert_eq!(loc, Some(Loc::Numa));
}

#[test]
fn parse_all_alone() {
    let (ord, loc) = job("A").parse().unwrap();
    assert_eq!(ord, "A");
    assert_eq!(loc, None);
}

#[test]
fn parse_fixed_node() {
    let (ord, loc) = job("2node").parse().unwrap();
    assert_eq!(ord, "2");
    assert_eq!(loc, Some(Loc::Node));
}

#[test]
fn parse_fixed_slot() {
    let (ord, loc) = job("12slot").parse().unwrap();
    assert_eq!(ord, "12");
    assert_eq!(loc, Some(Loc::Slot));
}

#[test]
fn parse_bad_syntax() {
    assert_eq!(job("Q").parse().unwrap_err(), Error::BadSyntax);
    assert_eq!(job("").parse().unwrap_err(), Error::BadSyntax);
    assert_eq!(job("4Numa").parse().unwrap_err(), Error::BadSyntax);
}

#[test]
fn parse_unknown_locality() {
    assert_eq!(job("4core").parse().unwrap_err(), Error::UnknownLocality);
    assert_eq!(job("Ecore").parse().unwrap_err(), Error::UnknownLocality);
}

#[test]
fn parse_each_needs_locality() {
    assert_eq!(job("E").parse().unwrap_err(), Error::EachRequiresLocality);
}

#[test]
fn entry_round_trip() {
    for map in ["4numa", "E" , "A", "2node", "7slot", "Eslot", "Anuma"] {
        match JobEntry::from_job(job(map)) {
            Ok(e) => {
                let loc = match e.loc {
                    Some(Loc::Numa) => "numa",
                    Some(Loc::Slot) => "slot",
                    Some(Loc::Node) => "node",
                    None => "",
                };
                assert_eq!(format!("{}{}", e.order, loc), map);
            }
            Err(e) => assert_eq!(e, Error::EachRequiresLocality),
        }
    }
}

#[test]
fn entry_pre_parses_order() {
    let e = JobEntry::from_job(job("4numa")).unwrap();
    assert_eq!(e.parsed, Order::Fixed(4));
    assert_eq!(e.loc_or_slot(), Loc::Numa);
    let e = JobEntry::from_job(job("A")).unwrap();
    assert_eq!(e.parsed, Order::All);
    assert_eq!(e.loc_or_slot(), Loc::Slot);
    let e = JobEntry::from_job(job("Enode")).unwrap();
    assert_eq!(e.parsed, Order::Each);
    assert_eq!(e.loc_or_slot(), Loc::Node);
}

#[test]
fn entry_order_too_large() {
    let e = JobEntry::from_job(job("999999999999999999999999slot")).unwrap_err();
    assert_eq!(e, Error::OrderTooLarge);
    assert!(e.is_config());
}

#[test]
fn load_keeps_order_and_stops_at_first_error() {
    let jl = JobList::load(vec![job("2slot"), job("A")]).unwrap();
    assert_eq!(jl.jobs.len(), 2);
    assert_eq!(jl.jobs[0].map, "2slot");
    assert_eq!(jl.jobs[1].map, "A");
    let e = JobList::load(vec![job("2slot"), job("Q")]).unwrap_err();
    assert_eq!(e, Error::BadSyntax);
    assert!(e.is_config());
}

#[test]
fn job_list_classes() {
    let jl = JobList::load(vec![job("Enuma"), job("3slot"), job("A"), job("A")]).unwrap();
    assert_eq!(jl.each_jobs(), vec![0]);
    assert_eq!(jl.fixed_jobs(), vec![1]);
    assert_eq!(jl.all_jobs(), vec![2, 3]);
    assert_eq!(jl.all_jobs_count(), 2);
    assert_eq!(jl.job_id(1).unwrap(), 1);
    assert!(matches!(jl.job_id(9), Err(Error::NoSuchJob { id: 9 })));
    assert_eq!(jl.job_by_id(2).unwrap().map, "A");
    assert!(jl.job_by_id(7).is_none());
}

#[test]
fn rank_parsing() {
    assert_eq!(parse_rank("0").unwrap(), 0);
    assert_eq!(parse_rank("12").unwrap(), 12);
    assert_eq!(parse_rank("-1").unwrap(), -1);
    assert_eq!(parse_rank("2147483647").unwrap(), 2147483647);
    assert_eq!(parse_rank("-2147483648").unwrap(), -2147483648);
    assert_eq!(parse_rank("2147483648").unwrap_err(), Error::BadRank);
    assert_eq!(parse_rank("abc").unwrap_err(), Error::BadRank);
    assert_eq!(parse_rank("").unwrap_err(), Error::BadRank);
    assert_eq!(parse_rank("-").unwrap_err(), Error::BadRank);
}

#[test]
fn rank_resolution_prefers_primary() {
    assert_eq!(resolve_rank(Some("3".to_string()), Some("7".to_string())).unwrap(), 3);
    assert_eq!(resolve_rank(None, Some("7".to_string())).unwrap(), 7);
    assert_eq!(resolve_rank(None, None).unwrap(), -1);
    assert_eq!(resolve_rank(Some("x".to_string()), None).unwrap_err(), Error::BadRank);
}

#[test]
fn host_resolution() {
    assert_eq!(resolve_host(Some("a".to_string()), Some("b".to_string())), "a");
    assert_eq!(resolve_host(None, Some("b".to_string())), "b");
    assert_eq!(resolve_host(None, None), "unknown");
}

#[test]
fn numa_selection_drops_empty() {
    let (ids, pus) = select_numa(vec![0, 1, 2], vec![vec![0, 1], vec![], vec![4]]);
    assert_eq!(ids, vec![0, 2]);
    assert_eq!(pus, vec![vec![0, 1], vec![4]]);
}

#[test]
fn leading_zeroes_round_trip() {
    let e = JobEntry::from_job(Job {
        map: "007slot".to_string(),
        command: vec!["x".to_string()],
    })
    .unwrap();
    assert_eq!(e.order, "007");
    assert_eq!(e.parsed, Order::Fixed(7));
    assert_eq!(format!("{}{}", e.order, "slot"), "007slot");
}
