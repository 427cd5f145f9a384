use anvil_sim::channel::{ChannelTable, RecvCache};
use anvil_sim::ir::{ChannelDef, Collection, Event, EventSource, ProcGraph, SpawnDef};
use anvil_sim::names::NameMap;
use anvil_sim::queue::EventQueue;
use anvil_sim::regs::{apply_pending_writes, PendingWrite, RegFile};
use anvil_sim::setup::{build_channel_table, flatten_procs};
use anvil_sim::sort::sort_by_id;

fn proc_graph(name: &str, args: Vec<&str>, channels: Vec<(&str, &str)>, spawns: Vec<(&str, Vec<&str>)>) -> ProcGraph {
    ProcGraph {
        name: name.to_string(),
        threads: vec![],
        args: args.into_iter().map(|s| s.to_string()).collect(),
        channels: channels.into_iter().map(|(l, r)| ChannelDef { left: l.to_string(), right: r.to_string() }).collect(),
        spawns: spawns
            .into_iter()
            .map(|(m, eps)| SpawnDef { module_name: m.to_string(), endpoints: eps.into_iter().map(|s| s.to_string()).collect() })
            .collect(),
    }
}

#[test]
fn procs_of_all_units_in_order() {
    let units = vec![
        Collection { procs: vec![proc_graph("a", vec![], vec![], vec![]), proc_graph("b", vec![], vec![], vec![])] },
        Collection { procs: vec![] },
        Collection { procs: vec![proc_graph("c", vec![], vec![], vec![])] },
    ];
    let names: Vec<String> = flatten_procs(units).into_iter().map(|p| p.name).collect();
    assert_eq!(names, vec!["a".to_string(), "b".to_string(), "c".to_string()]);
}

#[test]
fn declared_channel_joins_its_endpoints() {
    let procs = vec![proc_graph("top", vec![], vec![("l", "r"), ("x", "y")], vec![])];
    let table = build_channel_table(&procs);
    assert_eq!(table.channels.len(), 2);
    assert_eq!(table.channel_of(&"l".to_string()), Some(0));
    assert_eq!(table.channel_of(&"r".to_string()), Some(0));
    assert_eq!(table.channel_of(&"x".to_string()), Some(1));
    assert_eq!(table.channel_of(&"y".to_string()), Some(1));
    assert_eq!(table.channel_of(&"z".to_string()), None);
}

#[test]
fn spawned_parameters_alias_the_endpoints() {
    let procs = vec![
        proc_graph("top", vec![], vec![("l", "r")], vec![("producer", vec!["l"]), ("consumer", vec!["r", "nowhere"])]),
        proc_graph("producer", vec!["out"], vec![], vec![]),
        proc_graph("consumer", vec!["inp", "other"], vec![], vec![]),
    ];
    let table = build_channel_table(&procs);
    assert_eq!(table.channels.len(), 1);
    assert_eq!(table.channel_of(&"out".to_string()), Some(0));
    assert_eq!(table.channel_of(&"inp".to_string()), Some(0));
    assert_eq!(table.channel_of(&"other".to_string()), None);
}

#[test]
fn channel_slot_put_and_clear() {
    let mut table = ChannelTable::new();
    let c = table.add_channel();
    let m = "req".to_string();
    assert_eq!(table.slot(c, &m), None);
    table.put(c, &m, -3, 4);
    assert_eq!(table.slot(c, &m), Some(-3));
    assert_eq!(table.sent_at(c, &m), Some(4));
    assert_eq!(table.received_at(c, &m), None);
    table.clear(c, &m, 6);
    assert_eq!(table.slot(c, &m), None);
    assert_eq!(table.received_at(c, &m), Some(6));
    assert_eq!(table.sent_at(c, &m), Some(4));
}

#[test]
fn recv_cache_keeps_the_last_value() {
    let mut cache = RecvCache::new();
    let (a, b, m) = ("a".to_string(), "b".to_string(), "m".to_string());
    assert_eq!(cache.get(&a, &m), None);
    cache.insert(&a, &m, 1);
    cache.insert(&b, &m, 2);
    cache.insert(&a, &m, 3);
    assert_eq!(cache.get(&a, &m), Some(3));
    assert_eq!(cache.get(&b, &m), Some(2));
    assert_eq!(cache.get(&b, &"n".to_string()), None);
}

#[test]
fn name_map_insert_replaces() {
    let mut m: NameMap<u32> = NameMap::new();
    m.insert("x".to_string(), 1);
    m.insert("y".to_string(), 2);
    m.insert("x".to_string(), 3);
    assert_eq!(m.get(&"x".to_string()), Some(&3));
    assert_eq!(m.get(&"y".to_string()), Some(&2));
    assert_eq!(m.get(&"z".to_string()), None);
    assert_eq!(m.entries.len(), 2);
}

#[test]
fn queue_gives_smallest_first() {
    let mut q = EventQueue::new();
    assert!(q.is_empty());
    q.push((2, 0, 0));
    q.push((1, 5, 1));
    q.push((1, 5, 0));
    q.push((1, 7, 0));
    assert_eq!(q.len(), 4);
    assert_eq!(q.peek_min(), Some((1, 5, 0)));
    assert_eq!(q.pop_min(), Some((1, 5, 0)));
    assert_eq!(q.pop_min(), Some((1, 5, 1)));
    assert_eq!(q.pop_min(), Some((1, 7, 0)));
    assert_eq!(q.pop_min(), Some((2, 0, 0)));
    assert_eq!(q.pop_min(), None);
    assert!(q.is_empty());
}

fn ev(id: usize, is_recurse: bool) -> Event {
    Event { id, is_recurse, outs: vec![], source: EventSource::RootInit, actions: vec![], sustained_actions: vec![] }
}

#[test]
fn sort_by_id_is_stable() {
    let sorted = sort_by_id(vec![ev(3, false), ev(1, false), ev(3, true), ev(0, false), ev(1, true)]);
    let keys: Vec<(usize, bool)> = sorted.iter().map(|e| (e.id, e.is_recurse)).collect();
    assert_eq!(keys, vec![(0, false), (1, false), (1, true), (3, false), (3, true)]);
}

#[test]
fn writes_commit_as_a_new_version() {
    let mut regs = RegFile::new();
    let r = "r".to_string();
    let mut pending = vec![
        PendingWrite { reg: r.clone(), offset: 0, size: 8, value: 0x12 },
        PendingWrite { reg: r.clone(), offset: 8, size: 4, value: 0xf },
    ];
    apply_pending_writes(&mut regs, &mut pending, 3);
    assert!(pending.is_empty());
    assert!(regs.has(&r));
    assert_eq!(regs.storage_at(&r, 2), &[] as &[u8]);
    assert_eq!(regs.storage_at(&r, 3), &[0x12u8, 0x0f][..]);
    let mut more = vec![PendingWrite { reg: r.clone(), offset: 0, size: 4, value: 0 }];
    apply_pending_writes(&mut regs, &mut more, 5);
    assert_eq!(regs.storage_at(&r, 4), &[0x12u8, 0x0f][..]);
    assert_eq!(regs.storage_at(&r, 9), &[0x10u8, 0x0f][..]);
    assert_eq!(regs.storage_at(&"other".to_string(), 9), &[] as &[u8]);
}

#[test]
fn histories_stay_sorted_by_commit_cycle() {
    let mut regs = RegFile::new();
    let r = "r".to_string();
    for (cycle, value) in [(1usize, 4i64), (3, 5), (3, 6), (7, 1)] {
        let mut pending = vec![PendingWrite { reg: r.clone(), offset: 0, size: 8, value }];
        apply_pending_writes(&mut regs, &mut pending, cycle);
    }
    let cycles: Vec<usize> = regs.regs.get(&r).unwrap().iter().map(|(c, _)| *c).collect();
    assert_eq!(cycles, vec![0, 1, 3, 7]);
    assert_eq!(regs.storage_at(&r, 2), &[4u8][..]);
    assert_eq!(regs.storage_at(&r, 3), &[6u8][..]);
    assert_eq!(regs.storage_at(&r, 100), &[1u8][..]);
}
