use lmap::display::RandomColor;
use lmap::joblist::Loc;
use lmap::joblist::{Job, JobList};
use lmap::map::{CountChild, JobDesc, ProcMap, Slot};
use lmap::numfmt::u64_to_dec;
use lmap::Error;

fn report(host: &str, rank: i32, numa: Vec<usize>, pu: Vec<Vec<usize>>) -> JobDesc {
    JobDesc { host: host.to_string(), rank, numa, pu }
}

fn job(map: &str, command: &[&str]) -> Job {
    Job {
        map: map.to_string(),
        command: command.iter().map(|c| c.to_string()).collect(),
    }
}

/// One node, two NUMA domains with two single-PU slots each.
fn one_node_four_slots() -> ProcMap {
    ProcMap::init(&vec![
        report("h1", 0, vec![0], vec![vec![0]]),
        report("h1", 1, vec![0], vec![vec![1]]),
        report("h1", 2, vec![1], vec![vec![2]]),
        report("h1", 3, vec![1], vec![vec![3]]),
    ])
}

#[test]
fn single_node_two_fixed_jobs() {
    let mut pmap = one_node_four_slots();
    let jobs = JobList::load(vec![job("2slot", &["a"]), job("2slot", &["b"])]).unwrap();
    pmap.map(&jobs).unwrap();
    let lines = pmap.to_slurm(&jobs).unwrap();
    assert_eq!(lines, vec!["0,1 a".to_string(), "2,3 b".to_string()]);
}

#[test]
fn each_numa_plus_remainder() {
    let mut pmap = one_node_four_slots();
    let jobs = JobList::load(vec![job("Enuma", &["probe"]), job("A", &["work"])]).unwrap();
    pmap.map(&jobs).unwrap();
    let lines = pmap.to_slurm(&jobs).unwrap();
    assert_eq!(lines, vec!["0,2 probe".to_string(), "1,3 work".to_string()]);
}

#[test]
fn fixed_on_node_takes_one_per_node() {
    let mut pmap = ProcMap::init(&vec![
        report("h1", 0, vec![0], vec![vec![0]]),
        report("h1", 1, vec![0], vec![vec![1]]),
        report("h2", 2, vec![0], vec![vec![2]]),
        report("h2", 3, vec![0], vec![vec![3]]),
    ]);
    let jobs = JobList::load(vec![job("2node", &["x"])]).unwrap();
    pmap.map(&jobs).unwrap();
    let lines = pmap.to_slurm(&jobs).unwrap();
    assert_eq!(lines, vec!["0,2 x".to_string()]);
}

#[test]
fn over_commit_fails() {
    let mut pmap = ProcMap::init(&vec![
        report("h1", 0, vec![0], vec![vec![0]]),
        report("h1", 1, vec![0], vec![vec![1]]),
        report("h1", 2, vec![0], vec![vec![2]]),
    ]);
    let jobs = JobList::load(vec![job("5slot", &["x"])]).unwrap();
    let e = pmap.map(&jobs).unwrap_err();
    assert!(matches!(e, Error::NotEnoughSlots { requested: 5 }));
    assert!(e.is_capacity());
}

#[test]
fn grammar_error_fails_at_load() {
    let e = JobList::load(vec![job("Q", &["x"])]).unwrap_err();
    assert_eq!(e, Error::BadSyntax);
}

#[test]
fn each_requires_locality_at_load() {
    let e = JobList::load(vec![job("E", &["x"])]).unwrap_err();
    assert_eq!(e, Error::EachRequiresLocality);
}

#[test]
fn each_slot_takes_everything() {
    let mut pmap = one_node_four_slots();
    let jobs = JobList::load(vec![job("Eslot", &["p"])]).unwrap();
    pmap.map(&jobs).unwrap();
    assert_eq!(pmap.count_free_slots(), 0);
    let lines = pmap.to_slurm(&jobs).unwrap();
    assert_eq!(lines, vec!["0,1,2,3 p".to_string()]);
}

#[test]
fn two_each_slot_jobs_collide() {
    let mut pmap = one_node_four_slots();
    let jobs = JobList::load(vec![job("Eslot", &["p"]), job("Eslot", &["q"])]).unwrap();
    let e = pmap.map(&jobs).unwrap_err();
    assert_eq!(e, Error::SlotTaken);
}

#[test]
fn each_numa_after_full_fails() {
    let mut pmap = ProcMap::init(&vec![report("h1", 0, vec![0], vec![vec![0]])]);
    let jobs = JobList::load(vec![job("Eslot", &["p"]), job("Enuma", &["q"])]).unwrap();
    let e = pmap.map(&jobs).unwrap_err();
    assert!(matches!(e, Error::NoFreeSlotOnNuma { id: 0 }));
}

#[test]
fn each_node_after_full_fails() {
    let mut pmap = ProcMap::init(&vec![report("h1", 0, vec![0], vec![vec![0]])]);
    let jobs = JobList::load(vec![job("Eslot", &["p"]), job("Enode", &["q"])]).unwrap();
    let e = pmap.map(&jobs).unwrap_err();
    assert!(matches!(e, Error::NoFreeSlotOnNode { .. }));
}

#[test]
fn fixed_numa_over_capacity_fails_on_each() {
    let mut pmap = ProcMap::init(&vec![report("h1", 0, vec![0], vec![vec![0]])]);
    let jobs = JobList::load(vec![job("2numa", &["x"])]).unwrap();
    let e = pmap.map(&jobs).unwrap_err();
    assert_eq!(e, Error::NoRoomOnEach);
}

#[test]
fn empty_inventory_has_no_room() {
    let mut pmap = ProcMap::init(&vec![]);
    let jobs = JobList::load(vec![job("1numa", &["x"])]).unwrap();
    let e = pmap.map(&jobs).unwrap_err();
    assert!(matches!(e, Error::NoRoomLeft { left: 1 }));
}

#[test]
fn all_jobs_share_with_remainder_to_first() {
    // five free slots over two A jobs: the first takes 2 + 1, the second 2
    let mut pmap = ProcMap::init(&vec![
        report("h1", 0, vec![0], vec![vec![0]]),
        report("h1", 1, vec![0], vec![vec![1]]),
        report("h1", 2, vec![0], vec![vec![2]]),
        report("h1", 3, vec![0], vec![vec![3]]),
        report("h1", 4, vec![0], vec![vec![4]]),
    ]);
    let jobs = JobList::load(vec![job("A", &["a"]), job("A", &["b"])]).unwrap();
    pmap.map(&jobs).unwrap();
    assert_eq!(pmap.count_free_slots(), 0);
    let lines = pmap.to_slurm(&jobs).unwrap();
    assert_eq!(lines, vec!["0,1,2 a".to_string(), "3,4 b".to_string()]);
}

#[test]
fn no_all_jobs_leaves_slots_free() {
    let mut pmap = one_node_four_slots();
    let jobs = JobList::load(vec![job("1slot", &["only"])]).unwrap();
    pmap.map(&jobs).unwrap();
    assert_eq!(pmap.count_free_slots(), 3);
    let lines = pmap.to_slurm(&jobs).unwrap();
    assert_eq!(lines, vec!["0 only".to_string()]);
}

#[test]
fn emitter_rejects_unknown_job_id() {
    let mut pmap = one_node_four_slots();
    let jobs = JobList::load(vec![job("1slot", &["only"])]).unwrap();
    pmap.map(&jobs).unwrap();
    let e = pmap.per_job_ranks(0).unwrap_err();
    assert!(matches!(e, Error::NoSuchJob { id: 0 }));
}

#[test]
fn counts_follow_the_tree() {
    let pmap = one_node_four_slots();
    assert_eq!(pmap.count(), 4);
    assert_eq!(pmap.nodes[0].count(), 4);
    assert_eq!(pmap.nodes[0].numas[0].count(), 2);
    assert_eq!(pmap.nodes[0].numas[0].slots[0].count(), 1);
    assert_eq!(pmap.count_free_slots(), 4);
}

#[test]
fn walk_orders_are_node_major() {
    let pmap = one_node_four_slots();
    assert_eq!(pmap.each_node(), vec![0]);
    assert_eq!(pmap.each_numa(), vec![(0, 0), (0, 1)]);
    assert_eq!(
        pmap.each_slot(),
        vec![(0, 0, 0), (0, 0, 1), (0, 1, 0), (0, 1, 1)]
    );
}

#[test]
fn slot_range_pretty_forms() {
    let s = Slot { rank: 0, pu: vec![0, 1, 2, 3], job: None };
    assert_eq!(s.range(), "0-3");
    let s = Slot { rank: 0, pu: vec![0, 2], job: None };
    assert_eq!(s.range(), "pu: [0, 2]");
    let s = Slot { rank: 0, pu: vec![5], job: None };
    assert_eq!(s.range(), "pu: [5]");
    let s = Slot { rank: 0, pu: vec![], job: None };
    assert_eq!(s.range(), "pu: []");
}

#[test]
fn count_by_rank_groups_slots() {
    let mut pmap = ProcMap::init(&vec![
        report("h1", 7, vec![0], vec![vec![0, 1]]),
        report("h1", 7, vec![0], vec![vec![2, 3]]),
        report("h1", 8, vec![0], vec![vec![4]]),
    ]);
    let jobs = JobList::load(vec![job("1slot", &["x"])]).unwrap();
    pmap.map(&jobs).unwrap();
    let by_rank = pmap.nodes[0].numas[0].count_by_rank();
    assert_eq!(by_rank, vec![((7, Some(0)), 2), ((8, None), 1)]);
}

#[test]
fn decimal_rendering() {
    assert_eq!(u64_to_dec(0), "0");
    assert_eq!(u64_to_dec(7), "7");
    assert_eq!(u64_to_dec(1234), "1234");
    assert_eq!(u64_to_dec(18446744073709551615), "18446744073709551615");
}

#[test]
fn palette_rolls_and_keys_by_id() {
    let mut col = RandomColor::init();
    let first = col.next();
    assert_eq!(first, (255, 192, 203));
    assert_eq!(col.cur, 1);
    assert_eq!(col.id(0), (255, 192, 203));
    assert_eq!(col.id(47), (255, 192, 203));
    assert_eq!(col.id(1), (153, 204, 255));
    for _ in 0..46 {
        col.next();
    }
    assert_eq!(col.next(), (0, 0, 0));
}

#[test]
fn block_layout_picks_first_fitting_label() {
    let mut col = RandomColor::init();
    let b = ProcMap::print_block(
        vec!["Whole System".to_string(), "System".to_string()],
        2,
        &mut col,
        10,
    )
    .unwrap();
    assert_eq!(b.0, "Whole System");
    assert_eq!(b.1, 20 - "Whole System".len());
    assert_eq!(b.2, (255, 192, 203));
    let b = ProcMap::print_block(
        vec!["Whole System".to_string(), "System".to_string()],
        1,
        &mut col,
        10,
    )
    .unwrap();
    assert_eq!(b.0, "System");
    assert_eq!(b.1, 4);
    let b = ProcMap::print_block(vec!["abcd".to_string()], 2, &mut col, 1).unwrap();
    assert_eq!(b.0, "");
    assert_eq!(b.1, 2);
    assert!(ProcMap::print_block(vec![], 0, &mut col, 10).is_none());
}

#[test]
fn defined_size_walk_round_robins_numa_domains() {
    let mut pmap = one_node_four_slots();
    pmap.map_for_defined_size(Loc::Numa, 3, 0, false).unwrap();
    let jobs = JobList::load(vec![job("3numa", &["x"])]).unwrap();
    let lines = pmap.to_slurm(&jobs).unwrap();
    // one slot per domain and pass: ranks 0 and 2, then 1
    assert_eq!(lines, vec!["0,1,2 x".to_string()]);
}

#[test]
fn missing_rank_sentinel_is_emitted_signed() {
    let mut pmap = ProcMap::init(&vec![report("h1", -1, vec![0], vec![vec![0]])]);
    assert_eq!(pmap.nodes[0].numas[0].slots[0].rank, -1);
    let jobs = JobList::load(vec![job("1slot", &["x"])]).unwrap();
    pmap.map(&jobs).unwrap();
    let lines = pmap.to_slurm(&jobs).unwrap();
    assert_eq!(lines, vec!["-1 x".to_string()]);
}

#[test]
fn multiplier_follows_system_size() {
    assert_eq!(ProcMap::multiplier(0), 10);
    assert_eq!(ProcMap::multiplier(10), 10);
    assert_eq!(ProcMap::multiplier(11), 8);
    assert_eq!(ProcMap::multiplier(20), 8);
    assert_eq!(ProcMap::multiplier(21), 4);
    assert_eq!(ProcMap::multiplier(40), 4);
    assert_eq!(ProcMap::multiplier(41), 1);
}

#[test]
fn block_layout_with_explicit_color() {
    let b = ProcMap::print_block_color(
        vec!["Rank 7".to_string(), "7".to_string()],
        1,
        (155, 155, 155),
        10,
    )
    .unwrap();
    assert_eq!(b.0, "Rank 7");
    assert_eq!(b.1, 4);
    assert_eq!(b.2, (155, 155, 155));
    assert!(ProcMap::print_block_color(vec![], 0, (1, 2, 3), 10).is_none());
}
