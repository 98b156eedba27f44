use basalt::fdp::{all_slot_pairs, plan_forces, MissingPosition};
use basalt::graph::{EdgeId, EdgeIncidents, Graph, NodeId};
use basalt::interaction::{integrate, next_drag, pick_node, NodeDrag};
use basalt::mock_graph::{Color, MockGraph};
use basalt::note_graph::{Edge, Node, NoteGraph};
use basalt::positions::NodePositions;
use basalt::sync::{next_lattice_point, prune, synchronize, PLACEMENT_BOUND, PLACEMENT_STEP};

#[derive(Clone, Copy, Debug, PartialEq)]
struct Fdp {
    pos: (f32, f32),
    force: (f32, f32),
}

fn at(x: f32, y: f32) -> Fdp {
    Fdp { pos: (x, y), force: (0.0, 0.0) }
}

fn lattice(x: i64, y: i64) -> Fdp {
    Fdp { pos: (x as f32, y as f32), force: (x as f32, y as f32) }
}

fn entries(p: &NodePositions<Fdp>) -> Vec<(NodeId, Fdp)> {
    (0..p.len()).map(|i| *p.entry(i)).collect()
}

#[test]
fn mock_graph_has_its_dataset() {
    let g = MockGraph::new();
    let nodes = g.iter_nodes();
    assert_eq!(nodes.len(), 19);
    assert_eq!(nodes[0], NodeId(1));
    assert_eq!(nodes[18], NodeId(19));
    let edges = g.iter_edges();
    assert_eq!(edges.len(), 15);
    assert_eq!(edges[0], EdgeId(NodeId(1), NodeId(2)));
    assert_eq!(edges[14], EdgeId(NodeId(4), NodeId(2)));
    let first = g.get_node(NodeId(1)).unwrap();
    assert_eq!(first.radius(), 30);
    assert_eq!(first.fill(), Color::from_rgb(255, 255, 255));
    let second = g.get_node(NodeId(2)).unwrap();
    assert_eq!(second.stroke().color, Color::from_rgb(255, 0, 0));
    let third = g.get_node(NodeId(3)).unwrap();
    assert_eq!(third.radius(), 20);
    assert_eq!(third.fill(), Color::from_rgb(0, 255, 0));
    assert!(g.get_node(NodeId(20)).is_none());
    assert!(g.contains_node(NodeId(19)));
    assert!(!g.contains_node(NodeId(0)));
}

#[test]
fn mock_graph_edges_resolve_to_their_endpoints() {
    let g = MockGraph::new();
    let id = EdgeId(NodeId(7), NodeId(3));
    assert_eq!(
        g.get_edge_incidents(id),
        Some(EdgeIncidents { node_from: NodeId(7), node_to: NodeId(3) })
    );
    assert_eq!(g.get_edge(id).unwrap().stroke().color, Color::from_rgb(255, 0, 0));
    assert_eq!(
        g.get_edge(EdgeId(NodeId(1), NodeId(2))).unwrap().stroke().color,
        Color::from_rgb(255, 255, 255)
    );
    assert!(g.get_edge_incidents(EdgeId(NodeId(3), NodeId(7))).is_none());
    assert_eq!(
        g.iter_incidents(NodeId(7)),
        vec![EdgeId(NodeId(7), NodeId(6)), EdgeId(NodeId(7), NodeId(3))]
    );
    assert_eq!(g.iter_incidents(NodeId(2)).len(), 3);
}

#[test]
fn mock_graph_iterators_walk_in_order() {
    let g = MockGraph::new();
    let mut nodes = g.node_iter();
    let mut count = 0;
    while let Some((id, data)) = nodes.next() {
        count += 1;
        assert_eq!(id, NodeId(count));
        assert!(data.radius() == 20 || data.radius() == 30);
    }
    assert_eq!(count, 19);
    assert!(nodes.next().is_none());
    let mut edges = g.edge_iter();
    let (first, _) = edges.next().unwrap();
    assert_eq!(first, EdgeId(NodeId(1), NodeId(2)));
    let mut rest = 1;
    while edges.next().is_some() {
        rest += 1;
    }
    assert_eq!(rest, 15);
}

#[test]
fn note_graph_adds_and_removes() {
    let mut g: NoteGraph<u32, &str> = NoteGraph::new();
    let a = g.add_node(30);
    let b = g.add_node(20);
    assert_ne!(a, b);
    assert_eq!(g.iter_nodes(), vec![a, b]);
    assert_eq!(g.get_node(b), Some(&20));
    assert_eq!(g.add_edge(a, b, "ab"), Some(EdgeId(a, b)));
    assert_eq!(g.add_edge(a, NodeId(99), "x"), None);
    assert_eq!(g.add_edge(a, b, "again"), Some(EdgeId(a, b)));
    assert_eq!(g.iter_edges(), vec![EdgeId(a, b)]);
    assert_eq!(g.get_edge(EdgeId(a, b)), Some(&"again"));
    assert_eq!(g.iter_incidents(b), vec![EdgeId(a, b)]);
    let out = g.outgoing(a);
    assert_eq!(out.len(), 1);
    assert_eq!((out[0].target, *out[0].data), (b, "again"));
    assert!(g.outgoing(b).is_empty());
    assert_eq!(g.remove_edge(EdgeId(a, b)), Some("again"));
    assert_eq!(g.remove_edge(EdgeId(a, b)), None);
    assert!(g.iter_edges().is_empty());
}

#[test]
fn position_store_inserts_and_replaces() {
    let mut p: NodePositions<Fdp> = NodePositions::new();
    p.insert(NodeId(5), at(1.0, 2.0));
    p.insert(NodeId(6), at(3.0, 4.0));
    p.insert(NodeId(5), at(7.0, 8.0));
    assert_eq!(p.len(), 2);
    assert_eq!(p.get(NodeId(5)), Some(&at(7.0, 8.0)));
    assert_eq!(p.index_of(NodeId(6)), Some(1));
    assert_eq!(p.index_of(NodeId(7)), None);
    assert_eq!(p.ids(), vec![NodeId(5), NodeId(6)]);
    let removed = p.remove_at(0);
    assert_eq!(removed, (NodeId(5), at(7.0, 8.0)));
    assert!(!p.contains(NodeId(5)));
}

#[test]
fn lattice_walk_steps_and_wraps() {
    assert_eq!(next_lattice_point(0, PLACEMENT_STEP), (30, 0));
    assert_eq!(next_lattice_point(270, -270), (-300, -300));
    assert_eq!(next_lattice_point(-300, -300), (-270, 270));
    assert_eq!(PLACEMENT_BOUND, 300);
}

#[test]
fn synchronize_prunes_and_fills() {
    let mut g: NoteGraph<u32, ()> = NoteGraph::new();
    let a = g.add_node(30);
    let b = g.add_node(30);
    let c = g.add_node(20);
    let mut p: NodePositions<Fdp> = NodePositions::new();
    p.insert(NodeId(77), at(9.0, 9.0));
    p.insert(b, at(100.0, 0.0));
    synchronize(&g, &mut p, lattice);
    assert_eq!(
        entries(&p),
        vec![(b, at(100.0, 0.0)), (a, lattice(0, 30)), (c, lattice(30, 0))]
    );
}

#[test]
fn synchronize_twice_equals_once() {
    let g = MockGraph::new();
    let mut p: NodePositions<Fdp> = NodePositions::new();
    p.insert(NodeId(3), at(1.0, 1.0));
    p.insert(NodeId(40), at(2.0, 2.0));
    synchronize(&g, &mut p, lattice);
    let once = entries(&p);
    assert_eq!(once.len(), 19);
    assert_eq!(once[0], (NodeId(3), at(1.0, 1.0)));
    synchronize(&g, &mut p, lattice);
    assert_eq!(entries(&p), once);
}

#[test]
fn synchronize_walk_wraps_around() {
    let g = MockGraph::new();
    let mut p: NodePositions<Fdp> = NodePositions::new();
    synchronize(&g, &mut p, lattice);
    let e = entries(&p);
    assert_eq!(e[0].1, lattice(0, 30));
    assert_eq!(e[9].1, lattice(270, -240));
    assert_eq!(e[10].1, lattice(-300, -270));
    assert_eq!(e[11].1, lattice(-270, -300));
    assert_eq!(e[12].1, lattice(-240, 270));
}

#[test]
fn prune_keeps_graph_nodes_in_order() {
    let g = MockGraph::new();
    let mut p: NodePositions<Fdp> = NodePositions::new();
    p.insert(NodeId(2), at(0.0, 0.0));
    p.insert(NodeId(25), at(0.0, 0.0));
    p.insert(NodeId(1), at(1.0, 0.0));
    prune(&g, &mut p);
    assert_eq!(p.ids(), vec![NodeId(2), NodeId(1)]);
}

#[test]
fn pairs_cover_each_unordered_pair_once() {
    assert_eq!(all_slot_pairs(&vec![4, 2, 9]), vec![(4, 2), (4, 9), (2, 9)]);
    assert!(all_slot_pairs(&vec![1]).is_empty());
    assert_eq!(all_slot_pairs(&(0..19).collect()).len(), 171);
}

#[test]
fn plan_needs_every_node_placed() {
    let g = MockGraph::new();
    let mut p: NodePositions<Fdp> = NodePositions::new();
    for k in 1..=18 {
        p.insert(NodeId(k), at(0.0, 0.0));
    }
    assert_eq!(plan_forces(&g, &p).err(), Some(MissingPosition(NodeId(19))));
    p.insert(NodeId(19), at(0.0, 0.0));
    let plan = plan_forces(&g, &p).ok().unwrap();
    assert_eq!(plan.slots, (0..19).collect::<Vec<usize>>());
    assert_eq!(plan.pairs.len(), 171);
    assert_eq!(plan.springs.len(), 15);
    assert_eq!(plan.springs[2], (2, 0));
}

/// One force step over the slots of a plan: the force law of the layout
/// (centering pull 0.1, repulsion 1000/|d|² along the unit vector, springs on
/// a scale of 8 with ideal length 25), written out here because the step's
/// floating-point arithmetic stands outside the library.
fn step_forces(p: &mut NodePositions<Fdp>, slots: &[usize], pairs: &[(usize, usize)], springs: &[(usize, usize)]) {
    for &s in slots {
        let mut e = p.entry(s).1;
        e.force = (e.pos.0 * -1.0 * 0.1, e.pos.1 * -1.0 * 0.1);
        p.set_value(s, e);
    }
    for &(a, b) in pairs {
        let (pa, pb) = (p.entry(a).1.pos, p.entry(b).1.pos);
        let d = (pb.0 - pa.0, pb.1 - pa.1);
        let len2 = d.0 * d.0 + d.1 * d.1;
        let f = if len2 == 0.0 {
            (0.0, 0.0)
        } else {
            let len = len2.sqrt();
            (d.0 / len * (1000.0 / len2), d.1 / len * (1000.0 / len2))
        };
        let mut ea = p.entry(a).1;
        ea.force = (ea.force.0 - f.0, ea.force.1 - f.1);
        p.set_value(a, ea);
        let mut eb = p.entry(b).1;
        eb.force = (eb.force.0 + f.0, eb.force.1 + f.1);
        p.set_value(b, eb);
    }
    for &(u, v) in springs {
        let (pu, pv) = (p.entry(u).1.pos, p.entry(v).1.pos);
        let dis = ((pu.0 - pv.0) / 8.0, (pu.1 - pv.1) / 8.0);
        let len = (dis.0 * dis.0 + dis.1 * dis.1).sqrt();
        let diff = if len == 0.0 { 0.0 } else { (len / 25.0).log10() };
        let mut eu = p.entry(u).1;
        eu.force = (eu.force.0 - dis.0 * diff, eu.force.1 - dis.1 * diff);
        p.set_value(u, eu);
        let mut ev = p.entry(v).1;
        ev.force = (ev.force.0 + dis.0 * diff, ev.force.1 + dis.1 * diff);
        p.set_value(v, ev);
    }
}

#[test]
fn two_node_force_step() {
    let mut g: NoteGraph<u32, ()> = NoteGraph::new();
    let a = g.add_node(30);
    let b = g.add_node(30);
    g.add_edge(a, b, ());
    let mut p: NodePositions<Fdp> = NodePositions::new();
    p.insert(a, at(0.0, 0.0));
    p.insert(b, at(100.0, 0.0));
    let plan = plan_forces(&g, &p).ok().unwrap();
    assert_eq!(plan.pairs, vec![(0, 1)]);
    assert_eq!(plan.springs, vec![(0, 1)]);
    step_forces(&mut p, &plan.slots, &plan.pairs, &plan.springs);
    let fa = p.get(a).unwrap().force;
    let fb = p.get(b).unwrap().force;
    let spring = 12.5_f32 * (0.5_f32).log10();
    assert!((spring - -3.7629).abs() < 1e-3);
    assert!((fa.0 - (-0.1 + spring)).abs() < 1e-4);
    assert!((fb.0 - (-10.0 + 0.1 - spring)).abs() < 1e-4);
    assert!((fa.0 - -3.8629).abs() < 1e-3);
    assert!((fb.0 - -6.1371).abs() < 1e-3);
    assert_eq!(fa.1, 0.0);
    assert_eq!(fb.1, 0.0);
}

#[test]
fn gravity_pass_alone_pulls_to_origin() {
    let mut g: NoteGraph<u32, ()> = NoteGraph::new();
    let a = g.add_node(20);
    let mut p: NodePositions<Fdp> = NodePositions::new();
    p.insert(a, at(40.0, -20.0));
    let plan = plan_forces(&g, &p).ok().unwrap();
    assert!(plan.pairs.is_empty());
    assert!(plan.springs.is_empty());
    step_forces(&mut p, &plan.slots, &plan.pairs, &plan.springs);
    assert_eq!(p.get(a).unwrap().force, (-4.0, 2.0));
}

#[test]
fn integrate_skips_dragged_node() {
    let mut p: NodePositions<Fdp> = NodePositions::new();
    p.insert(NodeId(1), Fdp { pos: (0.0, 0.0), force: (1.0, 1.0) });
    p.insert(NodeId(2), Fdp { pos: (5.0, 5.0), force: (1.0, -1.0) });
    let step = |e: &Fdp| Fdp { pos: (e.pos.0 + e.force.0, e.pos.1 + e.force.1), force: e.force };
    integrate(&mut p, Some(NodeId(2)), step);
    integrate(&mut p, Some(NodeId(2)), step);
    assert_eq!(p.get(NodeId(1)).unwrap().pos, (2.0, 2.0));
    assert_eq!(p.get(NodeId(2)).unwrap().pos, (5.0, 5.0));
    let drag = next_drag(Some(NodeDrag { node_id: NodeId(2), offset: (0.0, 0.0) }), false, false, None);
    assert!(drag.is_none());
    integrate(&mut p, drag.map(|d: NodeDrag<(f32, f32)>| d.node_id), step);
    assert_eq!(p.get(NodeId(2)).unwrap().pos, (6.0, 4.0));
}

#[test]
fn press_picks_first_hit_and_release_drops_it() {
    let mut p: NodePositions<Fdp> = NodePositions::new();
    p.insert(NodeId(8), at(0.0, 0.0));
    p.insert(NodeId(3), at(1.0, 0.0));
    p.insert(NodeId(5), at(2.0, 0.0));
    let hits = vec![None, Some((1.0_f32, 0.0_f32)), Some((2.0, 0.0))];
    let picked = pick_node(&p, &hits).unwrap();
    assert_eq!(picked.node_id, NodeId(3));
    assert_eq!(picked.offset, (1.0, 0.0));
    assert!(pick_node(&p, &vec![None::<(f32, f32)>, None, None]).is_none());
    let held = next_drag(None, true, true, Some(picked));
    assert_eq!(held.as_ref().map(|d| d.node_id), Some(NodeId(3)));
    let still = next_drag(held, false, true, None);
    assert_eq!(still.as_ref().map(|d| d.node_id), Some(NodeId(3)));
    assert!(next_drag(still, false, false, None).is_none());
    let missed = next_drag(None::<NodeDrag<(f32, f32)>>, true, true, None);
    assert!(missed.is_none());
}

#[test]
fn removing_a_node_drops_its_edges_and_its_position() {
    let mut g: NoteGraph<u32, ()> = NoteGraph::new();
    let a = g.add_node(1);
    let b = g.add_node(2);
    let c = g.add_node(3);
    g.add_edge(a, b, ());
    g.add_edge(b, c, ());
    g.add_edge(c, a, ());
    let mut p: NodePositions<Fdp> = NodePositions::new();
    synchronize(&g, &mut p, lattice);
    assert_eq!(g.remove_node(b), Some(2));
    assert_eq!(g.remove_node(b), None);
    assert_eq!(g.iter_nodes(), vec![a, c]);
    assert_eq!(g.iter_edges(), vec![EdgeId(c, a)]);
    synchronize(&g, &mut p, lattice);
    assert_eq!(entries(&p), vec![(a, lattice(0, 30)), (c, lattice(60, -30))]);
    let d = g.add_node(4);
    synchronize(&g, &mut p, lattice);
    assert_eq!(p.ids(), vec![a, c, d]);
    assert_eq!(p.get(d), Some(&lattice(0, 30)));
}

#[test]
fn note_graph_of_named_notes() {
    let mut g: NoteGraph<Node, Edge> = NoteGraph::new();
    let rust = g.add_node(Node { link: String::from("rust.md") });
    let cargo = g.add_node(Node { link: String::from("cargo.md") });
    g.add_edge(cargo, rust, Edge { text: String::from("written in") });
    assert_eq!(g.get_node(rust).map(|n| n.link.as_str()), Some("rust.md"));
    assert_eq!(g.get_edge(EdgeId(cargo, rust)).map(|e| e.text.as_str()), Some("written in"));
    assert_eq!(
        g.get_edge_incidents(EdgeId(cargo, rust)),
        Some(EdgeIncidents { node_from: cargo, node_to: rust })
    );
}
