use scheduler::packet::Packet;
use scheduler::sched::Scheduler;

const WEIGHTS: [usize; 8] = [2, 5, 1, 8, 4, 3, 6, 7];

fn collect_read(s: &Scheduler) -> Vec<Packet> {
    let mut out: Vec<Packet> = Vec::new();
    let mut it = s.iter();
    while let Some(p) = it.next() {
        out.push(*p);
    }
    out
}

fn collect_drain(s: Scheduler) -> Vec<Packet> {
    let mut out: Vec<Packet> = Vec::new();
    let mut it = s.into_iter();
    while let Some(p) = it.next() {
        out.push(p);
    }
    out
}

fn collect_mut_payloads(s: &mut Scheduler) -> Vec<u64> {
    let mut out: Vec<u64> = Vec::new();
    let mut it = s.iter_mut();
    while let Some(e) = it.next() {
        out.push(*e);
    }
    out
}

#[test]
fn test_flow_order() {
    let mut scheduler = Scheduler::new(WEIGHTS);
    let flow_1: Vec<Packet> = (0..10).map(|payload| Packet::new(payload, 0, 1)).collect();
    let flow_2: Vec<Packet> = (0..4).map(|payload| Packet::new(payload, 7, 2)).collect();
    let flow_3: Vec<Packet> = (0..8).map(|payload| Packet::new(payload, 0, 3)).collect();
    scheduler.enqueue(&flow_1);
    scheduler.enqueue(&flow_2);
    scheduler.enqueue(&flow_3);
    assert_eq!(
        flow_1,
        collect_drain(scheduler.clone())
            .into_iter()
            .filter(|packet| packet.flow == 1)
            .collect::<Vec<Packet>>()
    );
    assert_eq!(
        flow_2,
        collect_read(&scheduler)
            .into_iter()
            .filter(|packet| packet.flow == 2)
            .collect::<Vec<Packet>>()
    );
    assert_eq!(
        flow_3,
        collect_read(&scheduler)
            .into_iter()
            .filter(|packet| packet.flow == 3)
            .collect::<Vec<Packet>>()
    );
    assert_eq!(collect_read(&scheduler), collect_drain(scheduler.clone()));
}

#[test]
fn test_weighting() {
    let mut scheduler = Scheduler::new(WEIGHTS);
    for queue in 0..3 {
        let packets: Vec<Packet> = (0..5).map(|flow| Packet::new(0, queue, flow)).collect();
        scheduler.enqueue(&packets);
    }
    let order = collect_read(&scheduler);
    for packet in order.iter().take(WEIGHTS[0]) {
        assert_eq!(0, packet.class);
    }
    for packet in order.iter().skip(WEIGHTS[0]).take(WEIGHTS[1]) {
        assert_eq!(1, packet.class);
    }
    for packet in order.iter().skip(WEIGHTS[0]).skip(WEIGHTS[1]).take(WEIGHTS[2]) {
        assert_eq!(2, packet.class);
    }
}

#[test]
fn test_class_order() {
    let desired_order = [
        Packet::new(0, 0, 0),
        Packet::new(0, 1, 0),
        Packet::new(0, 2, 0),
        Packet::new(0, 3, 0),
        Packet::new(0, 4, 0),
        Packet::new(0, 5, 0),
        Packet::new(0, 6, 0),
        Packet::new(0, 7, 0),
    ];
    let input_order = [
        Packet::new(0, 3, 0),
        Packet::new(0, 0, 0),
        Packet::new(0, 5, 0),
        Packet::new(0, 2, 0),
        Packet::new(0, 7, 0),
        Packet::new(0, 4, 0),
        Packet::new(0, 1, 0),
        Packet::new(0, 6, 0),
    ];
    let scrambled_order = [
        Packet::new(0, 7, 0),
        Packet::new(0, 3, 0),
        Packet::new(0, 2, 0),
        Packet::new(0, 0, 0),
        Packet::new(0, 4, 0),
        Packet::new(0, 1, 0),
        Packet::new(0, 6, 0),
        Packet::new(0, 5, 0),
    ];
    let mut scheduler = Scheduler::default();
    scheduler.enqueue(&input_order);
    let scheduled_packets = collect_read(&scheduler);
    assert_eq!(desired_order.to_vec(), scheduled_packets);
    assert_ne!(scrambled_order.to_vec(), scheduled_packets);
}

#[test]
fn scrambled_enqueue_order() {
    let enqueue_order: Vec<Packet> =
        [7u8, 3, 2, 0, 4, 1, 6, 5].iter().map(|c| Packet::new(*c as u64, *c, 9)).collect();
    let mut scheduler = Scheduler::default();
    scheduler.enqueue(&enqueue_order);
    let order = collect_read(&scheduler);
    let classes: Vec<u8> = order.iter().map(|p| p.class).collect();
    assert_eq!(classes, vec![0, 1, 2, 3, 4, 5, 6, 7]);
    assert_ne!(order, enqueue_order);
}

#[test]
fn mode_equivalence() {
    let mut scheduler = Scheduler::new(WEIGHTS);
    for class in 0..8u8 {
        let packets: Vec<Packet> = (0..7)
            .map(|i| Packet::new(class as u64 * 100 + i, class, i as u16))
            .collect();
        scheduler.enqueue(&packets);
    }
    let read_order = collect_read(&scheduler);
    let mut for_mut = scheduler.clone();
    let mut_payloads = collect_mut_payloads(&mut for_mut);
    let drain_order = collect_drain(scheduler);
    assert_eq!(read_order, drain_order);
    let read_payloads: Vec<u64> = read_order.iter().map(|p| p.payload).collect();
    assert_eq!(read_payloads, mut_payloads);
}

#[test]
fn mut_traversal_edits_payload() {
    let mut scheduler = Scheduler::new(WEIGHTS);
    let packets: Vec<Packet> = (0..6).map(|i| Packet::new(i, (i % 3) as u8, 4)).collect();
    scheduler.enqueue(&packets);
    let before = collect_read(&scheduler);
    {
        let mut it = scheduler.iter_mut();
        while let Some(e) = it.next() {
            *e += 1000;
        }
    }
    let after = collect_read(&scheduler);
    assert_eq!(before.len(), after.len());
    for (b, a) in before.iter().zip(after.iter()) {
        assert_eq!(b.class, a.class);
        assert_eq!(b.flow, a.flow);
        assert_eq!(b.payload + 1000, a.payload);
    }
}

#[test]
fn drain_exhaustion() {
    let mut scheduler = Scheduler::new(WEIGHTS);
    let packets: Vec<Packet> = (0..12).map(|i| Packet::new(i, (i % 8) as u8, 1)).collect();
    scheduler.enqueue(&packets);
    let mut it = scheduler.into_iter();
    let mut count = 0;
    while let Some(_) = it.next() {
        count += 1;
    }
    assert_eq!(count, 12);
    assert!(it.next().is_none());
    assert!(it.next().is_none());
}

#[test]
fn zero_weight_starvation() {
    let mut weights = [1usize; 8];
    weights[3] = 0;
    let mut scheduler = Scheduler::new(weights);
    let packets: Vec<Packet> = (0..16).map(|i| Packet::new(i, (i % 8) as u8, 2)).collect();
    scheduler.enqueue(&packets);
    let order = collect_read(&scheduler);
    assert_eq!(order.len(), 14);
    assert!(order.iter().all(|p| p.class != 3));
    let drained = collect_drain(scheduler);
    assert!(drained.iter().all(|p| p.class != 3));
    assert_eq!(drained.len(), 14);
}

#[test]
fn weight_quota_blocks() {
    let weights: [usize; 8] = [2, 1, 3, 1, 1, 1, 1, 2];
    let total: usize = weights.iter().sum();
    let mut scheduler = Scheduler::new(weights);
    for class in 0..8u8 {
        let packets: Vec<Packet> =
            (0..total as u64).map(|i| Packet::new(i, class, class as u16)).collect();
        scheduler.enqueue(&packets);
    }
    let order = collect_read(&scheduler);
    let mut at = 0;
    for round in 0..2 {
        for class in 0..8u8 {
            for _ in 0..weights[class as usize] {
                assert_eq!(order[at].class, class, "round {round}");
                at += 1;
            }
        }
    }
}

#[test]
fn empty_scheduler_yields_nothing() {
    let scheduler = Scheduler::new(WEIGHTS);
    assert!(collect_read(&scheduler).is_empty());
    let mut cloned = scheduler.clone();
    assert!(collect_mut_payloads(&mut cloned).is_empty());
    assert!(collect_drain(scheduler).is_empty());
}

#[test]
fn enqueue_between_read_traversals() {
    let mut scheduler = Scheduler::default();
    scheduler.enqueue(&[Packet::new(1, 0, 1)]);
    assert_eq!(collect_read(&scheduler).len(), 1);
    scheduler.enqueue(&[Packet::new(2, 0, 1), Packet::new(3, 5, 2)]);
    let order = collect_read(&scheduler);
    assert_eq!(order.len(), 3);
    assert_eq!(
        order,
        vec![Packet::new(1, 0, 1), Packet::new(3, 5, 2), Packet::new(2, 0, 1)]
    );
}
