use lex_lattice::snapshot::parse_snapshot;
use lex_lattice::state::{generate_deterministic_init, StateError, StateManager};

#[test]
fn test_state_manager_creation() {
    let mut manager = StateManager::new();
    let node_id = manager.register_node("LEX-VIT".to_string(), 4, 2).unwrap();
    assert_eq!(manager.ledger.states.len(), 1);
    assert!(manager.ledger.states.iter().any(|e| e.owner == node_id));
}

#[test]
fn test_state_update() {
    let mut manager = StateManager::new();
    let node_id = manager.register_node("LEX-VIT".to_string(), 4, 2).unwrap();
    let control_input = vec![1_000_000, -500_000];
    let result = manager.update_state(node_id, control_input.clone());
    assert!(result.is_ok());
    let new_state = result.unwrap();
    assert_eq!(new_state.control_input, control_input);
}

#[test]
fn test_deterministic_behavior() {
    let mut manager1 = StateManager::new();
    let mut manager2 = StateManager::new();
    let node_id1 = manager1.register_node("LEX-VIT".to_string(), 2, 1).unwrap();
    let node_id2 = manager2.register_node("LEX-VIT".to_string(), 2, 1).unwrap();
    let control_input = vec![100_000];
    let _ = manager1.update_state(node_id1, control_input.clone());
    let _ = manager2.update_state(node_id2, control_input.clone());
    let state1 = &manager1.get_node_state(node_id1).unwrap().current_state.state_data;
    let state2 = &manager2.get_node_state(node_id2).unwrap().current_state.state_data;
    for (s1, s2) in state1.iter().zip(state2.iter()) {
        assert_eq!(s1, s2);
    }
}

#[test]
fn registration_builds_the_documented_matrices() {
    let mut m = StateManager::new();
    let id = m.register_node("LEX-WTH".to_string(), 3, 2).unwrap();
    let x = m.get_node_state(id).unwrap();
    assert_eq!(
        x.transition_matrix.matrix,
        vec![vec![980_000, 10_000, 0], vec![0, 980_100, 20_000], vec![0, 0, 980_200]]
    );
    // 0.1 on the diagonal, 0.02 (i + j) / 5 elsewhere
    assert_eq!(x.control_matrix.matrix, vec![vec![100_000, 4_000], vec![4_000, 100_000], vec![8_000, 12_000]]);
    assert_eq!(x.current_state.state_data, vec![0, 0, 0]);
    assert_eq!(x.convergence_threshold, 1);
    assert_eq!(x.temperature, 0);
}

#[test]
fn update_computes_the_recurrence() {
    let mut m = StateManager::new();
    let id = m.register_node("LEX-VIT".to_string(), 2, 1).unwrap();
    let v = m.update_state(id, vec![100_000]).unwrap();
    // B = [[0.1], [0.02/3]] truncated to millionths: [100000, 6666]
    assert_eq!(v.state_data, vec![10_000, 666]);
    let v = m.update_state(id, vec![0]).unwrap();
    // A = [[0.98, 0.01], [0, 0.9801]]
    assert_eq!(v.state_data, vec![(980_000i128 * 10_000 + 10_000 * 666) as i64 / 1_000_000, 980_100 * 666 / 1_000_000]);
    assert_eq!(m.ledger.state_history.len(), 2);
    assert!(m.get_immutable_ledger().is_empty());
}

#[test]
fn components_are_clamped() {
    let mut m = StateManager::new();
    let id = m.register_node("X".to_string(), 2, 2).unwrap();
    let v = m.update_state(id, vec![i64::MAX, i64::MIN]).unwrap();
    assert_eq!(v.state_data, vec![10_000_000, -10_000_000]);
}

#[test]
fn extra_inputs_are_ignored_and_missing_ones_are_zero() {
    let mut a = StateManager::new();
    let mut b = StateManager::new();
    let ia = a.register_node("X".to_string(), 1, 1).unwrap();
    let ib = b.register_node("X".to_string(), 1, 1).unwrap();
    let va = a.update_state(ia, vec![2_000_000, 5, 6]).unwrap();
    let vb = b.update_state(ib, vec![2_000_000]).unwrap();
    assert_eq!(va.state_data, vb.state_data);
    assert_eq!(va.state_data, vec![200_000]);
    let vc = a.update_state(ia, vec![]).unwrap();
    assert_eq!(vc.state_data, vec![196_000]);
}

#[test]
fn unknown_owner_is_reported() {
    let mut m = StateManager::new();
    assert_eq!(m.update_state(12345, vec![1]).err(), Some(StateError::UnknownStateOwner));
    assert_eq!(m.get_node_state(12345).err(), Some(StateError::UnknownStateOwner));
    assert!(m.ledger.state_history.is_empty());
}

#[test]
fn oversized_and_duplicate_registrations_are_refused() {
    let mut m = StateManager::new();
    assert_eq!(m.register_node("X".to_string(), 4_294_967_296, 1), Err(StateError::DimensionTooLarge));
    assert_eq!(m.register_node("X".to_string(), 1, 4_294_967_296), Err(StateError::DimensionTooLarge));
    assert!(m.ledger.states.is_empty());
    assert_eq!(m.register_node_with("X".to_string(), 2, 2, 77, 1, 0), Ok(77));
    assert_eq!(m.register_node_with("Y".to_string(), 2, 2, 77, 2, 0), Err(StateError::DuplicateStateOwner));
    assert_eq!(m.ledger.states.len(), 1);
}

#[test]
fn zero_sized_state_always_converges() {
    let mut m = StateManager::new();
    let id = m.register_node("X".to_string(), 0, 0).unwrap();
    let v = m.update_state(id, vec![]).unwrap();
    assert!(v.state_data.is_empty());
    assert_eq!(m.get_immutable_ledger().len(), 1);
}

#[test]
fn two_engines_emit_identical_sequences() {
    let inputs: Vec<Vec<i64>> = vec![
        vec![1_000_000, -2_000_000],
        vec![0, 0],
        vec![5_000_000, 5_000_000],
        vec![-3, 7],
        vec![0, 0],
    ];
    let mut a = StateManager::new();
    let mut b = StateManager::new();
    let _ = b.register_node("OTHER".to_string(), 5, 5).unwrap();
    let ia = a.register_node("LEX-MON".to_string(), 3, 2).unwrap();
    let ib = b.register_node("LEX-MON".to_string(), 3, 2).unwrap();
    for u in &inputs {
        let va = a.update_state(ia, u.clone()).unwrap();
        let vb = b.update_state(ib, u.clone()).unwrap();
        assert_eq!(va.state_data, vb.state_data);
        assert_eq!(va.hidden_state, vb.hidden_state);
        assert_eq!(va.control_input, vb.control_input);
    }
}

#[test]
fn zero_input_converges_and_stays_converged() {
    let mut m = StateManager::new();
    let id = m.register_node("LEX-VIT".to_string(), 2, 2).unwrap();
    m.update_state(id, vec![1_000_000, 1_000_000]).unwrap();
    let mut first: Option<usize> = None;
    for step in 0..5000 {
        let before = m.get_immutable_ledger().len();
        m.update_state(id, vec![0, 0]).unwrap();
        if m.get_immutable_ledger().len() == before + 1 {
            first = Some(step);
            break;
        }
    }
    assert!(first.is_some());
    for _ in 0..20 {
        let before = m.get_immutable_ledger().len();
        let v = m.update_state(id, vec![0, 0]).unwrap();
        assert_eq!(m.get_immutable_ledger().len(), before + 1);
        assert_eq!(v.state_data, vec![0, 0]);
    }
}

#[test]
fn snapshot_restore_reproduces_later_updates() {
    let mut saved = StateManager::new();
    let a = saved.register_node("LEX-VIT".to_string(), 3, 2).unwrap();
    let b = saved.register_node("LEX-WTH".to_string(), 2, 3).unwrap();
    saved.update_state(a, vec![1_000_000, 2]).unwrap();
    saved.update_state(b, vec![-7, 3_000_000, 9]).unwrap();
    saved.update_state(a, vec![0, 0]).unwrap();
    let bytes = saved.create_snapshot();

    let mut restored = StateManager::new();
    restored.load_snapshot(&bytes).unwrap();
    assert_eq!(restored.create_snapshot(), bytes);
    assert_eq!(restored.ledger.state_history.len(), 3);
    assert_eq!(restored.get_immutable_ledger().len(), saved.get_immutable_ledger().len());

    for u in [vec![0, 0], vec![4_000_000, -4_000_000], vec![1, 1]] {
        let x = saved.update_state_with(a, u.clone(), 1, 2).unwrap();
        let y = restored.update_state_with(a, u.clone(), 1, 2).unwrap();
        assert_eq!(x.state_data, y.state_data);
        assert_eq!(x.node_id, y.node_id);
        assert_eq!(saved.create_snapshot(), restored.create_snapshot());
    }
}

#[test]
fn malformed_snapshots_are_refused() {
    let mut m = StateManager::new();
    let id = m.register_node("X".to_string(), 2, 1).unwrap();
    m.update_state(id, vec![1]).unwrap();
    let bytes = m.create_snapshot();
    let before = m.create_snapshot();

    let mut target = StateManager::new();
    assert_eq!(target.load_snapshot(&bytes[..bytes.len() - 1]), Err(StateError::SerializationFault));
    let mut longer = bytes.clone();
    longer.push(0);
    assert_eq!(target.load_snapshot(&longer), Err(StateError::SerializationFault));
    assert_eq!(target.load_snapshot(&[]), Err(StateError::SerializationFault));
    assert!(target.ledger.states.is_empty());
    assert!(parse_snapshot(&bytes).is_some());
    assert_eq!(m.create_snapshot(), before);
}

#[test]
fn snapshot_breaking_the_invariant_is_refused() {
    let mut m = StateManager::new();
    m.register_node_with("X".to_string(), 1, 1, 5, 1, 0).unwrap();
    let mut bytes = m.create_snapshot();
    // the temperature is the last field of the only entry, followed by two empty lists
    let temperature_at = bytes.len() - 16 - 8;
    bytes[temperature_at] = 1;
    let mut target = StateManager::new();
    assert_eq!(target.load_snapshot(&bytes), Err(StateError::SerializationFault));
    assert!(parse_snapshot(&bytes).is_some());
}

#[test]
fn empty_ledger_snapshot() {
    let m = StateManager::default();
    let bytes = m.create_snapshot();
    assert_eq!(bytes, vec![0u8; 24]);
    let mut target = StateManager::new();
    assert_eq!(target.load_snapshot(&bytes), Ok(()));
}

#[test]
fn deterministic_init_presets() {
    assert_eq!(generate_deterministic_init(4, "LEX-VIT"), vec![72_000_000, 65_000_000, 25_000_000, 85_000_000]);
    assert_eq!(generate_deterministic_init(2, "LEX-WTH"), vec![6_000_000, 45_000_000_000]);
    assert_eq!(generate_deterministic_init(9, "LEX-MON"), vec![15_000_000, 95_000_000, 0, 0]);
    assert_eq!(generate_deterministic_init(3, "LEX-KNO"), vec![0, 0, 0]);
    assert_eq!(generate_deterministic_init(0, "LEX-VIT"), Vec::<i64>::new());
}

#[test]
fn large_sizes_register() {
    let mut m = StateManager::new();
    let wide = m.register_node("X".to_string(), 2, 5000).unwrap();
    let x = m.get_node_state(wide).unwrap();
    assert_eq!(x.control_matrix.matrix.len(), 2);
    assert_eq!(x.control_matrix.matrix[0].len(), 5000);
    assert_eq!(x.control_matrix.matrix[1][4999], 20_000 * 5000 / 5002);
    let tall = m.register_node("Y".to_string(), 4100, 1).unwrap();
    let y = m.get_node_state(tall).unwrap();
    assert_eq!(y.transition_matrix.matrix[4099][4099], 980_000 + 100 * 4099);
    assert_eq!(y.transition_matrix.matrix[4098][4099], 10_000 * 4099);
    let v = m.update_state(tall, vec![1_000_000]).unwrap();
    assert_eq!(v.state_data.len(), 4100);
    assert_eq!(v.state_data[0], 100_000);
}
