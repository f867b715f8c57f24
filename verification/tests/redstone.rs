use aether::redstone::{NodeId, NodeKind, RedstoneGraphBuilder};

#[test]
fn doc_example_source_wire_lamp() {
    let mut b = RedstoneGraphBuilder::new();
    let src = b.add_source(15);
    let w1 = b.add_wire();
    let lamp = b.add_lamp();
    b.link(src, w1);
    b.link(w1, lamp);
    let g = b.build();
    assert_eq!(g.power(w1), 15);
    assert!(g.is_lit(lamp));
    assert_eq!(g.kind(lamp), NodeKind::Lamp);
}

#[test]
fn source_wire_chain_attenuates() {
    let mut b = RedstoneGraphBuilder::new();
    let src = b.add_source(15);
    let wires: Vec<_> = (0..4).map(|_| b.add_wire()).collect();
    b.link(src, wires[0]);
    for w in wires.windows(2) {
        b.link(w[0], w[1]);
    }
    let g = b.build();
    assert_eq!(g.power(wires[0]), 15);
    assert_eq!(g.power(wires[1]), 14);
    assert_eq!(g.power(wires[2]), 13);
    assert_eq!(g.power(wires[3]), 12);
}

#[test]
fn wire_signal_dies_after_15_blocks() {
    let mut b = RedstoneGraphBuilder::new();
    let src = b.add_source(15);
    let wires: Vec<_> = (0..17).map(|_| b.add_wire()).collect();
    b.link(src, wires[0]);
    for w in wires.windows(2) {
        b.link(w[0], w[1]);
    }
    let g = b.build();
    assert_eq!(g.power(wires[14]), 1);
    assert_eq!(g.power(wires[15]), 0);
    assert_eq!(g.power(wires[16]), 0);
}

#[test]
fn lamp_lights_within_range_and_not_beyond() {
    let mut b = RedstoneGraphBuilder::new();
    let src = b.add_source(15);
    let near = b.add_wire();
    let near_lamp = b.add_lamp();
    b.link(src, near);
    b.link(near, near_lamp);
    let g = b.build();
    assert!(g.is_lit(near_lamp));
    assert!(!g.is_lit(near));
}

#[test]
fn repeater_reboosts_and_extends_the_line() {
    let mut b = RedstoneGraphBuilder::new();
    let src = b.add_source(15);
    let mut prev = src;
    let mut last_wire = src;
    for _ in 0..15 {
        let w = b.add_wire();
        b.link(prev, w);
        prev = w;
        last_wire = w;
    }
    let rep = b.add_repeater();
    b.link(last_wire, rep);
    let after = b.add_wire();
    b.link(rep, after);
    let lamp = b.add_lamp();
    b.link(after, lamp);
    let g = b.build();
    assert_eq!(g.power(last_wire), 1);
    assert_eq!(g.power(rep), 15);
    assert_eq!(g.power(after), 15);
    assert!(g.is_lit(lamp));
}

#[test]
fn unpowered_source_leaves_network_dark() {
    let mut b = RedstoneGraphBuilder::new();
    let src = b.add_source(0);
    let w = b.add_wire();
    let lamp = b.add_lamp();
    b.link(src, w);
    b.link(w, lamp);
    let g = b.build();
    assert_eq!(g.power(w), 0);
    assert!(!g.is_lit(lamp));
}

#[test]
fn toggling_a_source_resolves() {
    let mut b = RedstoneGraphBuilder::new();
    let src = b.add_source(0);
    let w = b.add_wire();
    let lamp = b.add_lamp();
    b.link(src, w);
    b.link(w, lamp);
    let mut g = b.build();
    assert!(!g.is_lit(lamp));
    assert!(g.set_source(src, 15));
    assert!(g.is_lit(lamp));
    assert_eq!(g.power(w), 15);
    g.set_source(src, 0);
    assert!(!g.is_lit(lamp));
    assert!(!g.set_source(w, 15));
}

#[test]
fn strongest_of_two_sources_wins_at_a_junction() {
    let mut b = RedstoneGraphBuilder::new();
    let weak = b.add_source(5);
    let strong = b.add_source(15);
    let junction = b.add_wire();
    b.link(weak, junction);
    b.link(strong, junction);
    let g = b.build();
    assert_eq!(g.power(junction), 15);
}

#[test]
fn wire_loop_is_stable() {
    let mut b = RedstoneGraphBuilder::new();
    let src = b.add_source(15);
    let ring: Vec<_> = (0..6).map(|_| b.add_wire()).collect();
    b.link(src, ring[0]);
    for i in 0..ring.len() {
        b.link_both(ring[i], ring[(i + 1) % ring.len()]);
    }
    let g = b.build();
    assert_eq!(g.power(ring[0]), 15);
    assert!(g.power(ring[3]) > 0 && g.power(ring[3]) <= 15);
}

#[test]
fn bidirectional_wire_carries_both_ways() {
    let mut b = RedstoneGraphBuilder::new();
    let mid = b.add_wire();
    let left = b.add_source(15);
    let rlamp = b.add_lamp();
    let a = b.add_wire();
    b.link(left, mid);
    b.link_both(mid, a);
    b.link(a, rlamp);
    let g = b.build();
    assert!(g.is_lit(rlamp));
}

#[test]
fn empty_graph_is_harmless() {
    let g = RedstoneGraphBuilder::new().build();
    assert!(g.is_empty());
    assert_eq!(g.len(), 0);
}

#[test]
fn source_level_is_clamped_to_fifteen() {
    let mut b = RedstoneGraphBuilder::new();
    let src = b.add_source(200);
    let w = b.add_wire();
    b.link(src, w);
    let mut g = b.build();
    assert_eq!(g.power(src), 15);
    assert_eq!(g.power(w), 15);
    assert!(g.set_source(src, 99));
    assert_eq!(g.power(src), 15);
}

#[test]
fn ring_settles_to_the_shortest_wire_distance() {
    let mut b = RedstoneGraphBuilder::new();
    let src = b.add_source(15);
    let ring: Vec<_> = (0..6).map(|_| b.add_wire()).collect();
    b.link(src, ring[0]);
    for i in 0..ring.len() {
        b.link_both(ring[i], ring[(i + 1) % ring.len()]);
    }
    let g = b.build();
    let expected = [15u8, 14, 13, 12, 13, 14];
    for (i, w) in ring.iter().enumerate() {
        assert_eq!(g.power(*w), expected[i]);
    }
}

#[test]
fn toggling_back_restores_the_first_solution() {
    let mut b = RedstoneGraphBuilder::new();
    let src = b.add_source(9);
    let ws: Vec<_> = (0..5).map(|_| b.add_wire()).collect();
    b.link(src, ws[0]);
    for w in ws.windows(2) {
        b.link(w[0], w[1]);
    }
    let mut g = b.build();
    let before: Vec<u8> = (0..g.len() as u32).map(|i| g.power(NodeId(i))).collect();
    assert!(g.set_source(src, 15));
    assert!(g.set_source(src, 9));
    let after: Vec<u8> = (0..g.len() as u32).map(|i| g.power(NodeId(i))).collect();
    assert_eq!(before, after);
    assert_eq!(before, vec![9, 9, 8, 7, 6, 5]);
}

#[test]
fn lamps_do_not_forward_power() {
    let mut b = RedstoneGraphBuilder::new();
    let src = b.add_source(15);
    let lamp = b.add_lamp();
    let w = b.add_wire();
    b.link(src, lamp);
    b.link(lamp, w);
    let g = b.build();
    assert!(g.is_lit(lamp));
    assert_eq!(g.power(w), 0);
    assert!(!g.is_powered(w));
    assert_eq!(NodeId(2).index(), 2);
}
