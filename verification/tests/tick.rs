use entity_graph::{
    ConnectMessage, ConnectedComponent, ConnectedComponentPlugin, ConnectionUpdateEvent,
    ConnectionsPlugin,
    DisconnectMessage, EntityGraph, EntityGraphPlugin, EntityGraphSystem, InConnectedComponent,
    MembershipIndex,
};
use std::collections::HashSet;

fn graph_with_nodes(nodes: &[u64]) -> EntityGraph {
    let mut graph = EntityGraph::new();
    for &n in nodes {
        assert!(graph.spawn(n));
    }
    graph
}

fn tick(graph: &mut EntityGraph, connects: &[(u64, u64)], disconnects: &[(u64, u64)]) {
    let connects: Vec<ConnectMessage> = connects.iter().map(|&p| ConnectMessage(p)).collect();
    let disconnects: Vec<DisconnectMessage> =
        disconnects.iter().map(|&p| DisconnectMessage(p)).collect();
    EntityGraphPlugin.run(graph, &connects, &disconnects);
}

fn component(graph: &EntityGraph, node: u64) -> Option<u64> {
    graph.components.component_of(node).map(|c| c.0)
}

fn members(graph: &EntityGraph, component: u64) -> Vec<u64> {
    let mut members = graph.components.members_of(component).unwrap().to_vec();
    members.sort();
    members
}

fn neighbors(graph: &EntityGraph, node: u64) -> Vec<u64> {
    graph.connections.get(node).unwrap().to_vec()
}

fn reachable(graph: &EntityGraph, nodes: &[u64], from: u64, to: u64) -> bool {
    let mut seen: Vec<u64> = vec![from];
    let mut i = 0;
    while i < seen.len() {
        let at = seen[i];
        for next in neighbors(graph, at) {
            if nodes.contains(&next) && !seen.contains(&next) {
                seen.push(next);
            }
        }
        i += 1;
    }
    seen.contains(&to)
}

fn assert_symmetric(graph: &EntityGraph, nodes: &[u64]) {
    for &a in nodes {
        for &b in nodes {
            assert_eq!(
                neighbors(graph, a).contains(&b),
                neighbors(graph, b).contains(&a),
                "adjacency of {a} and {b}"
            );
        }
    }
}

fn assert_partition(graph: &EntityGraph, nodes: &[u64]) {
    for &a in nodes {
        assert_eq!(component(graph, a).is_some(), !neighbors(graph, a).is_empty());
        for &b in nodes {
            if a != b {
                let together = component(graph, a).is_some()
                    && component(graph, a) == component(graph, b);
                assert_eq!(together, reachable(graph, nodes, a, b), "nodes {a} and {b}");
            }
        }
    }
    let mut identities: Vec<u64> = nodes.iter().filter_map(|&n| component(graph, n)).collect();
    identities.sort();
    identities.dedup();
    for c in identities {
        let expected: Vec<u64> =
            nodes.iter().copied().filter(|&n| component(graph, n) == Some(c)).collect();
        assert_eq!(members(graph, c), expected);
    }
}

#[test]
fn a_tick_within_the_limits_can_run() {
    let mut graph = graph_with_nodes(&[1, 2]);
    let connects = vec![ConnectMessage((1, 2))];
    assert!(EntityGraphPlugin.can_run(&graph, &connects, &vec![]));
    EntityGraphPlugin.run(&mut graph, &connects, &vec![]);
    assert_eq!(graph.components.next_component(), 1);
    assert!(EntityGraphPlugin.can_run(&graph, &vec![], &vec![DisconnectMessage((1, 2))]));
}

#[test]
fn stages_run_in_their_order() {
    let order = EntityGraphSystem::get_config();
    assert_eq!(order[0], EntityGraphSystem::UpdateGraph);
    assert_eq!(order[1], EntityGraphSystem::ComputeConnectedComponents);
}

#[test]
fn a_chain_becomes_one_component_and_splits_in_two() {
    let nodes = [1u64, 2, 3, 4, 5];
    let mut graph = graph_with_nodes(&nodes);
    for n in nodes {
        assert_eq!(component(&graph, n), None);
    }
    tick(&mut graph, &[(1, 2), (2, 3), (3, 4)], &[]);
    let initial = component(&graph, 1).unwrap();
    for n in [2u64, 3, 4] {
        assert_eq!(component(&graph, n), Some(initial));
    }
    assert_eq!(members(&graph, initial), vec![1, 2, 3, 4]);
    assert_eq!(component(&graph, 5), None);
    assert_partition(&graph, &nodes);

    tick(&mut graph, &[], &[(2, 3)]);
    let left = component(&graph, 1).unwrap();
    let right = component(&graph, 3).unwrap();
    assert_ne!(left, right);
    assert_eq!(component(&graph, 2), Some(left));
    assert_eq!(component(&graph, 4), Some(right));
    assert_eq!(members(&graph, left), vec![1, 2]);
    assert_eq!(members(&graph, right), vec![3, 4]);
    assert!((left == initial) != (right == initial));
    assert_eq!(component(&graph, 5), None);
    assert_partition(&graph, &nodes);
}

#[test]
fn the_fragment_processed_first_keeps_the_identity() {
    let nodes = [1u64, 2, 3, 4];
    let mut graph = graph_with_nodes(&nodes);
    tick(&mut graph, &[(1, 2), (2, 3), (3, 4)], &[]);
    let initial = component(&graph, 1).unwrap();
    tick(&mut graph, &[], &[(3, 2)]);
    assert_eq!(component(&graph, 3), Some(initial));
    assert_eq!(component(&graph, 4), Some(initial));
    assert_ne!(component(&graph, 1), Some(initial));
    assert_eq!(component(&graph, 1), component(&graph, 2));
}

#[test]
fn two_isolated_nodes_joining_a_component_take_its_identity() {
    let nodes = [1u64, 2, 3, 4];
    let mut graph = graph_with_nodes(&nodes);
    tick(&mut graph, &[(3, 4)], &[]);
    let existing = component(&graph, 3).unwrap();
    let next_before = graph.components.members_of(existing + 1).is_none();
    assert!(next_before);
    tick(&mut graph, &[(1, 2), (1, 3), (2, 3)], &[]);
    for n in nodes {
        assert_eq!(component(&graph, n), Some(existing));
    }
    assert_eq!(members(&graph, existing), vec![1, 2, 3, 4]);
    assert!(graph.components.members_of(existing + 1).is_none());
    assert_partition(&graph, &nodes);
}

#[test]
fn merging_two_components_destroys_the_one_left_empty() {
    let nodes = [1u64, 2, 3, 4];
    let mut graph = graph_with_nodes(&nodes);
    tick(&mut graph, &[(1, 2), (3, 4)], &[]);
    let first = component(&graph, 1).unwrap();
    let second = component(&graph, 3).unwrap();
    assert_ne!(first, second);
    tick(&mut graph, &[(2, 3)], &[]);
    let merged = component(&graph, 1).unwrap();
    assert!(merged == first || merged == second);
    let gone = if merged == first { second } else { first };
    assert!(graph.components.members_of(gone).is_none());
    assert_eq!(members(&graph, merged), vec![1, 2, 3, 4]);
    assert_partition(&graph, &nodes);
}

#[test]
fn a_node_left_without_neighbors_loses_its_membership() {
    let nodes = [1u64, 2];
    let mut graph = graph_with_nodes(&nodes);
    tick(&mut graph, &[(1, 2)], &[]);
    let c = component(&graph, 1).unwrap();
    tick(&mut graph, &[], &[(1, 2)]);
    assert_eq!(component(&graph, 1), None);
    assert_eq!(component(&graph, 2), None);
    assert!(graph.components.members_of(c).is_none());
    assert_partition(&graph, &nodes);
}

#[test]
fn a_pair_in_both_queues_ends_the_tick_disconnected() {
    let nodes = [1u64, 2];
    let mut graph = graph_with_nodes(&nodes);
    tick(&mut graph, &[(1, 2)], &[(2, 1)]);
    assert!(neighbors(&graph, 1).is_empty());
    assert!(neighbors(&graph, 2).is_empty());
    assert_eq!(component(&graph, 1), None);
    assert_eq!(component(&graph, 2), None);
}

#[test]
fn connecting_twice_is_connecting_once() {
    let nodes = [1u64, 2];
    let mut graph = graph_with_nodes(&nodes);
    tick(&mut graph, &[(1, 2), (2, 1), (1, 2)], &[]);
    assert_eq!(neighbors(&graph, 1), vec![2]);
    assert_eq!(neighbors(&graph, 2), vec![1]);
    tick(&mut graph, &[(1, 2)], &[]);
    assert_eq!(neighbors(&graph, 1), vec![2]);
    assert_partition(&graph, &nodes);
}

#[test]
fn untouched_components_keep_their_identity() {
    let nodes = [1u64, 2, 3, 4, 5, 6];
    let mut graph = graph_with_nodes(&nodes);
    tick(&mut graph, &[(1, 2), (3, 4)], &[]);
    let far = component(&graph, 3).unwrap();
    tick(&mut graph, &[(5, 6), (1, 5)], &[]);
    assert_eq!(component(&graph, 3), Some(far));
    assert_eq!(component(&graph, 4), Some(far));
    assert_eq!(members(&graph, far), vec![3, 4]);
    assert_partition(&graph, &nodes);
}

#[test]
fn requests_on_missing_nodes_are_reported_and_the_other_side_applied() {
    let mut graph = graph_with_nodes(&[1, 2]);
    let report = EntityGraphPlugin.run(
        &mut graph,
        &vec![ConnectMessage((1, 70)), ConnectMessage((80, 90)), ConnectMessage((1, 2))],
        &vec![DisconnectMessage((60, 2))],
    );
    assert_eq!(report.missing, vec![70, 80, 90, 60]);
    assert_eq!(report.notices, vec![ConnectionUpdateEvent(1), ConnectionUpdateEvent(2)]);
    assert_eq!(neighbors(&graph, 1), vec![70, 2]);
    assert_eq!(neighbors(&graph, 2), vec![1]);
    assert_eq!(report.stale, vec![70]);
    assert_eq!(component(&graph, 1), component(&graph, 2));
    assert!(component(&graph, 1).is_some());
    assert_eq!(component(&graph, 70), None);
}

#[test]
fn a_node_that_lists_only_a_missing_node_is_a_component_of_its_own() {
    let mut graph = graph_with_nodes(&[1]);
    tick(&mut graph, &[(1, 9)], &[]);
    let c = component(&graph, 1).unwrap();
    assert_eq!(members(&graph, c), vec![1]);
}

#[test]
fn symmetry_holds_after_every_tick() {
    let nodes = [1u64, 2, 3, 4, 5, 6];
    let mut graph = graph_with_nodes(&nodes);
    let ticks: Vec<(Vec<(u64, u64)>, Vec<(u64, u64)>)> = vec![
        (vec![(1, 2), (2, 3), (4, 5)], vec![]),
        (vec![(3, 4), (6, 6)], vec![(1, 2)]),
        (vec![(1, 6), (7, 1)], vec![(2, 3), (3, 4), (9, 9)]),
        (vec![(2, 5), (5, 2)], vec![(6, 6), (4, 5)]),
        (vec![], vec![(1, 6), (2, 5), (1, 7)]),
    ];
    for (connects, disconnects) in ticks {
        tick(&mut graph, &connects, &disconnects);
        assert_symmetric(&graph, &nodes);
    }
}

#[test]
fn the_partition_is_right_after_every_tick() {
    let nodes = [1u64, 2, 3, 4, 5, 6, 7, 8];
    let mut graph = graph_with_nodes(&nodes);
    let mut state: u64 = 0x2545_f491_4f6c_dd1d;
    let mut pick = move || {
        state ^= state << 13;
        state ^= state >> 7;
        state ^= state << 17;
        state % 8 + 1
    };
    for _ in 0..60 {
        let mut connects = Vec::new();
        let mut disconnects = Vec::new();
        for _ in 0..(pick() % 4) {
            let (a, b) = (pick(), pick());
            if a != b {
                connects.push((a, b));
            }
        }
        for _ in 0..(pick() % 4) {
            disconnects.push((pick(), pick()));
        }
        tick(&mut graph, &connects, &disconnects);
        assert_symmetric(&graph, &nodes);
        assert_partition(&graph, &nodes);
    }
}

#[test]
fn no_component_is_left_without_members() {
    let nodes = [1u64, 2, 3, 4];
    let mut graph = graph_with_nodes(&nodes);
    tick(&mut graph, &[(1, 2), (3, 4)], &[]);
    tick(&mut graph, &[(2, 3)], &[(1, 2), (3, 4)]);
    tick(&mut graph, &[], &[(2, 3)]);
    for c in 0..16u64 {
        if let Some(component) = graph.components.members_of(c) {
            assert!(!component.is_empty());
        }
    }
    for n in nodes {
        assert_eq!(component(&graph, n), None);
    }
}

#[test]
fn despawning_a_node_detaches_it_and_keeps_the_partition() {
    let nodes = [1u64, 2, 3, 4];
    let mut graph = graph_with_nodes(&nodes);
    tick(&mut graph, &[(1, 2), (2, 3), (3, 1), (3, 4), (4, 1)], &[]);
    let c = component(&graph, 1).unwrap();
    assert_eq!(graph.despawn(3), Some(vec![]));
    assert!(graph.connections.get(3).is_none());
    assert_eq!(component(&graph, 3), None);
    for n in [1u64, 2, 4] {
        assert!(!neighbors(&graph, n).contains(&3));
        assert_eq!(component(&graph, n), Some(c));
    }
    assert_eq!(members(&graph, c), vec![1, 2, 4]);
    assert_symmetric(&graph, &[1, 2, 4]);
    assert_partition(&graph, &[1, 2, 4]);
    assert_eq!(graph.despawn(3), None);
    assert_eq!(members(&graph, c), vec![1, 2, 4]);
}

#[test]
fn despawning_the_last_member_destroys_the_component() {
    let mut graph = graph_with_nodes(&[1]);
    tick(&mut graph, &[(1, 1)], &[]);
    let c = component(&graph, 1).unwrap();
    assert_eq!(members(&graph, c), vec![1]);
    assert!(graph.despawn(1).is_some());
    assert!(graph.components.members_of(c).is_none());
}

#[test]
fn spawning_twice_keeps_the_node() {
    let mut graph = graph_with_nodes(&[1, 2]);
    tick(&mut graph, &[(1, 2)], &[]);
    assert!(!graph.spawn(1));
    assert_eq!(neighbors(&graph, 1), vec![2]);
    assert!(component(&graph, 1).is_some());
}

#[test]
fn connect_messages_note_each_changed_list_once() {
    let mut graph = graph_with_nodes(&[1, 2, 3]);
    let mut updates: Vec<ConnectionUpdateEvent> = Vec::new();
    let missing = ConnectMessage::on_message(
        &vec![ConnectMessage((2, 1)), ConnectMessage((1, 3)), ConnectMessage((5, 3))],
        &mut updates,
        &mut graph.connections,
    );
    assert_eq!(missing, vec![5]);
    assert_eq!(
        updates,
        vec![ConnectionUpdateEvent(2), ConnectionUpdateEvent(1), ConnectionUpdateEvent(3)]
    );
    assert_eq!(neighbors(&graph, 1), vec![2, 3]);
    assert_eq!(neighbors(&graph, 3), vec![1, 5]);
}

#[test]
fn disconnect_messages_note_each_changed_list_once() {
    let mut graph = graph_with_nodes(&[1, 2, 3]);
    tick(&mut graph, &[(1, 2), (2, 3)], &[]);
    let mut updates = vec![ConnectionUpdateEvent(3)];
    let missing = DisconnectMessage::on_message(
        &vec![DisconnectMessage((3, 2)), DisconnectMessage((1, 8)), DisconnectMessage((1, 3))],
        &mut updates,
        &mut graph.connections,
    );
    assert_eq!(missing, vec![8]);
    assert_eq!(updates, vec![ConnectionUpdateEvent(3), ConnectionUpdateEvent(2)]);
    assert_eq!(neighbors(&graph, 1), vec![2]);
    assert_eq!(neighbors(&graph, 2), vec![1]);
    assert!(neighbors(&graph, 3).is_empty());
}

#[test]
fn the_index_moves_a_node_between_components() {
    let mut index = MembershipIndex::new();
    let a = index.spawn();
    let b = index.spawn();
    assert_eq!((a, b), (0, 1));
    assert!(index.insert(10, a));
    assert!(index.insert(11, a));
    assert!(!index.insert(12, 9));
    assert_eq!(index.component_of(12), None);
    assert_eq!(index.component_of(10), Some(InConnectedComponent(a)));
    index.insert(10, b);
    assert_eq!(index.component_of(10), Some(InConnectedComponent(b)));
    assert!(!index.members_of(a).unwrap().contains(10));
    assert!(index.members_of(a).unwrap().contains(11));
    assert!(index.members_of(b).unwrap().contains(10));
    assert_eq!(index.remove(10), Some(InConnectedComponent(b)));
    assert_eq!(index.remove(10), None);
    assert_eq!(index.component_of(10), None);
    assert!(index.members_of(b).unwrap().is_empty());
    assert!(index.members_of(a).is_some());
    assert!(index.members_of(7).is_none());
}

#[test]
fn empty_components_are_destroyed_and_others_kept() {
    let mut index = MembershipIndex::new();
    let a = index.spawn();
    let b = index.spawn();
    let c = index.spawn();
    index.insert(1, b);
    ConnectedComponent::update(&mut index);
    assert!(index.members_of(a).is_none());
    assert!(index.members_of(c).is_none());
    assert_eq!(index.members_of(b).unwrap().to_vec(), vec![1]);
    assert_eq!(index.spawn(), 3);
}

#[test]
fn a_default_component_has_no_member() {
    let component = ConnectedComponent::default();
    assert!(component.is_empty());
    assert!(!component.contains(1));
    assert!(component.to_vec().is_empty());
}

#[test]
fn the_own_component_is_taken_first() {
    let mut graph = graph_with_nodes(&[1, 2, 3, 4]);
    tick(&mut graph, &[(1, 2)], &[]);
    tick(&mut graph, &[(3, 4)], &[]);
    let own = component(&graph, 1).unwrap();
    let other = component(&graph, 3).unwrap();
    graph.connections.connect(1, 3);
    let mut used = HashSet::new();
    let chosen = InConnectedComponent::get_or_spawn_connected_component(
        1,
        &mut graph.components,
        &mut used,
        graph.connections.get(1).unwrap(),
    );
    assert_eq!(chosen, own);
    assert!(used.contains(&own));
    assert_eq!(used.len(), 1);
    let second = InConnectedComponent::get_or_spawn_connected_component(
        1,
        &mut graph.components,
        &mut used,
        graph.connections.get(1).unwrap(),
    );
    assert_eq!(second, other);
    let third = InConnectedComponent::get_or_spawn_connected_component(
        1,
        &mut graph.components,
        &mut used,
        graph.connections.get(1).unwrap(),
    );
    assert_ne!(third, own);
    assert_ne!(third, other);
    assert!(graph.components.members_of(third).unwrap().is_empty());
    assert_eq!(used.len(), 3);
}

#[test]
fn neighbors_are_probed_in_their_order() {
    let mut graph = graph_with_nodes(&[1, 2, 3, 4, 5]);
    tick(&mut graph, &[(2, 3)], &[]);
    tick(&mut graph, &[(4, 5)], &[]);
    let first = component(&graph, 2).unwrap();
    let second = component(&graph, 4).unwrap();
    graph.connections.connect(1, 4);
    graph.connections.connect(1, 2);
    let mut used = HashSet::new();
    let chosen = InConnectedComponent::get_or_spawn_connected_component(
        1,
        &mut graph.components,
        &mut used,
        graph.connections.get(1).unwrap(),
    );
    assert_eq!(chosen, second);
    assert_ne!(chosen, first);
}

#[test]
fn update_recomputes_only_from_the_notices() {
    let mut graph = graph_with_nodes(&[1, 2, 3, 4]);
    for (a, b) in [(1u64, 2u64), (3, 4)] {
        graph.connections.connect(a, b);
        graph.connections.connect(b, a);
    }
    let stale = InConnectedComponent::update(
        &vec![ConnectionUpdateEvent(1), ConnectionUpdateEvent(1), ConnectionUpdateEvent(50)],
        &graph.connections,
        &mut graph.components,
    );
    assert_eq!(stale, vec![50]);
    assert_eq!(component(&graph, 1), Some(0));
    assert_eq!(component(&graph, 2), Some(0));
    assert_eq!(component(&graph, 3), None);
    assert_eq!(component(&graph, 4), None);
}

#[test]
fn the_stage_destroys_what_update_leaves_empty() {
    let mut graph = graph_with_nodes(&[1, 2]);
    tick(&mut graph, &[(1, 2)], &[]);
    let c = component(&graph, 1).unwrap();
    graph.connections.disconnect(1, 2);
    graph.connections.disconnect(2, 1);
    let updates = vec![ConnectionUpdateEvent(1), ConnectionUpdateEvent(2)];
    let stale = ConnectedComponentPlugin.run(&updates, &graph.connections, &mut graph.components);
    assert!(stale.is_empty());
    assert!(graph.components.members_of(c).is_none());
    assert_eq!(component(&graph, 1), None);
}

#[test]
fn stale_neighbors_are_reported_once() {
    let mut graph = graph_with_nodes(&[1, 2, 3]);
    let connects = vec![
        ConnectMessage((1, 2)),
        ConnectMessage((2, 3)),
        ConnectMessage((1, 40)),
        ConnectMessage((2, 40)),
        ConnectMessage((3, 40)),
    ];
    let report = EntityGraphPlugin.run(&mut graph, &connects, &vec![]);
    assert_eq!(report.missing, vec![40, 40, 40]);
    assert_eq!(report.stale, vec![40]);
    assert_partition(&graph, &[1, 2, 3]);
}

#[test]
fn removing_a_cut_node_isolates_its_neighbors() {
    let mut graph = graph_with_nodes(&[1, 2, 3]);
    tick(&mut graph, &[(1, 2), (2, 3)], &[]);
    let c = component(&graph, 1).unwrap();
    assert_eq!(graph.despawn(2), Some(vec![]));
    assert!(neighbors(&graph, 1).is_empty());
    assert!(neighbors(&graph, 3).is_empty());
    assert_eq!(component(&graph, 1), None);
    assert_eq!(component(&graph, 3), None);
    assert_eq!(component(&graph, 2), None);
    assert!(graph.components.members_of(c).is_none());
    assert_partition(&graph, &[1, 3]);
}

#[test]
fn removing_a_cut_node_splits_its_component() {
    let nodes = [1u64, 2, 3, 4, 5];
    let mut graph = graph_with_nodes(&nodes);
    tick(&mut graph, &[(1, 2), (2, 3), (3, 4), (4, 5)], &[]);
    let c = component(&graph, 1).unwrap();
    assert_eq!(graph.despawn(3), Some(vec![]));
    let left = component(&graph, 1).unwrap();
    let right = component(&graph, 5).unwrap();
    assert_ne!(left, right);
    assert_eq!(left, c);
    assert_eq!(members(&graph, left), vec![1, 2]);
    assert_eq!(members(&graph, right), vec![4, 5]);
    assert_symmetric(&graph, &[1, 2, 4, 5]);
    assert_partition(&graph, &[1, 2, 4, 5]);
    tick(&mut graph, &[(2, 4)], &[]);
    assert_partition(&graph, &[1, 2, 4, 5]);
}

#[test]
fn the_partition_is_right_after_every_removal() {
    let mut nodes: Vec<u64> = (1..=9).collect();
    let mut graph = graph_with_nodes(&nodes);
    tick(
        &mut graph,
        &[(1, 2), (2, 3), (3, 4), (4, 5), (5, 6), (6, 1), (3, 7), (7, 8), (9, 9)],
        &[],
    );
    assert_partition(&graph, &nodes);
    for gone in [3u64, 9, 6, 7, 1, 4] {
        assert!(graph.despawn(gone).is_some());
        nodes.retain(|&n| n != gone);
        assert_symmetric(&graph, &nodes);
        assert_partition(&graph, &nodes);
        for c in 0..32u64 {
            if let Some(component) = graph.components.members_of(c) {
                assert!(!component.is_empty());
            }
        }
    }
}

#[test]
fn requests_that_change_nothing_are_not_noted() {
    let mut graph = graph_with_nodes(&[1, 2, 3]);
    tick(&mut graph, &[(1, 2)], &[]);
    let c = component(&graph, 1).unwrap();
    let report = EntityGraphPlugin.run(&mut graph, &vec![], &vec![DisconnectMessage((1, 3))]);
    assert!(report.notices.is_empty());
    assert!(report.missing.is_empty());
    let report = EntityGraphPlugin.run(&mut graph, &vec![ConnectMessage((1, 2))], &vec![]);
    assert!(report.notices.is_empty());
    assert_eq!(neighbors(&graph, 1), vec![2]);
    assert_eq!(neighbors(&graph, 2), vec![1]);
    assert!(neighbors(&graph, 3).is_empty());
    assert_eq!(component(&graph, 1), Some(c));
    assert_eq!(component(&graph, 2), Some(c));
    assert_eq!(graph.components.next_component(), c + 1);
}

#[test]
fn a_list_changed_and_changed_back_is_noted() {
    let mut graph = graph_with_nodes(&[1, 2]);
    let report = EntityGraphPlugin.run(
        &mut graph,
        &vec![ConnectMessage((1, 2))],
        &vec![DisconnectMessage((1, 2))],
    );
    assert_eq!(report.notices, vec![ConnectionUpdateEvent(1), ConnectionUpdateEvent(2)]);
    assert!(neighbors(&graph, 1).is_empty());
}

#[test]
fn the_first_stage_applies_requests_and_takes_notices() {
    let mut graph = graph_with_nodes(&[1, 2, 3]);
    let (notices, missing) = ConnectionsPlugin.run(
        &mut graph.connections,
        &vec![ConnectMessage((1, 2)), ConnectMessage((3, 4))],
        &vec![DisconnectMessage((2, 1)), DisconnectMessage((5, 3))],
    );
    assert_eq!(
        notices,
        vec![ConnectionUpdateEvent(1), ConnectionUpdateEvent(2), ConnectionUpdateEvent(3)]
    );
    assert_eq!(missing, vec![4, 5]);
    assert!(neighbors(&graph, 1).is_empty());
    assert!(neighbors(&graph, 2).is_empty());
    assert_eq!(neighbors(&graph, 3), vec![4]);
    assert_eq!(component(&graph, 3), None);
}
