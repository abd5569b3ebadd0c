use fst_writer::differential::{
    hierarchy_step, sort_changes, value_for, Action, HarnessState, HierarchyAction,
    Item, Op, VarType,
};

#[test]
fn value_for_binary() {
    assert_eq!(value_for(VarType::BitVec(3), 0b1101, false), b"1011".to_vec());
    assert_eq!(value_for(VarType::BitVec(0), 0, false), b"0".to_vec());
    // after 64 characters the bits start over
    let v = value_for(VarType::BitVec(69), 0b101, false);
    assert_eq!(v.len(), 70);
    assert_eq!(&v[64..67], b"101");
}

#[test]
fn value_for_four_state() {
    assert_eq!(value_for(VarType::BitVec(3), 0b1110_0100, true), b"01xz".to_vec());
    let v = value_for(VarType::BitVec(33), 0b1110_0100, true);
    assert_eq!(&v[32..34], b"01");
}

#[test]
fn value_for_real() {
    let bits = 0x0102_0304_0506_0708u64;
    assert_eq!(value_for(VarType::Real, bits, false), [8, 7, 6, 5, 4, 3, 2, 1]);
    assert_eq!(
        value_for(VarType::Real, bits, true),
        f64::from_bits(bits).to_le_bytes().to_vec()
    );
}

#[test]
fn sort_value_changes() {
    let mut changes = vec![
        (2u64, 0usize, b"a".to_vec()),
        (1, 5, b"b".to_vec()),
        (1, 5, b"a".to_vec()),
        (1, 2, b"zz".to_vec()),
        (1, 5, b"".to_vec()),
        (1, 5, b"ab".to_vec()),
    ];
    let mut expected = changes.clone();
    expected.sort();
    sort_changes(&mut changes);
    assert_eq!(changes, expected);
    assert_eq!(changes[0], (1, 2, b"zz".to_vec()));
    assert_eq!(changes[1], (1, 5, b"".to_vec()));
}

/// The history of the reference's no-op flush corruption: `10, 20, 30, flush, 40`, with a value
/// only at 40. The flush finds nothing pending and is held back.
#[test]
fn harness_holds_back_pointless_flush() {
    let mut s = HarnessState::new();
    let mut actions = vec![];
    for op in [
        Op::Time { delta: 10 },
        Op::Time { delta: 10 },
        Op::Time { delta: 10 },
        Op::Flush,
        Op::Time { delta: 10 },
        Op::Value { var: 3, bits: 1, four_state: false },
    ] {
        actions.push(s.step(op, 2));
    }
    assert_eq!(
        actions,
        [
            Action::TimeChange(10),
            Action::TimeChange(20),
            Action::TimeChange(30),
            Action::Skip,
            Action::TimeChange(40),
            Action::ValueChange { var: 1, bits: 1, four_state: false },
        ]
    );
}

/// A flush with a value pending and three time steps is passed on; values are then held back
/// until the time advances, and a zero delta does not advance it.
#[test]
fn harness_flush_then_values_wait_for_time() {
    let mut s = HarnessState::new();
    let ops = [
        Op::Time { delta: 1 },
        Op::Value { var: 0, bits: 0, four_state: true },
        Op::Time { delta: 1 },
        Op::Time { delta: 1 },
        Op::Flush,
        Op::Value { var: 0, bits: 0, four_state: true },
        Op::Time { delta: 0 },
        Op::Value { var: 0, bits: 0, four_state: true },
        Op::Time { delta: 2 },
        Op::Value { var: 0, bits: 0, four_state: true },
    ];
    let actions: Vec<Action> = ops.iter().map(|op| s.step(*op, 1)).collect();
    assert_eq!(actions[4], Action::Flush);
    assert_eq!(actions[5], Action::Skip);
    assert_eq!(actions[6], Action::TimeChange(3));
    assert_eq!(actions[7], Action::Skip);
    assert_eq!(actions[8], Action::TimeChange(5));
    assert_eq!(
        actions[9],
        Action::ValueChange { var: 0, bits: 0, four_state: true }
    );
    assert_eq!(s.steps_since_section, 2);
}

#[test]
fn hierarchy_aliases_take_the_target_type() {
    let mut depth = 0usize;
    let mut types: Vec<VarType> = vec![];
    // an alias with nothing to alias is a variable of its own
    let first = hierarchy_step(
        &mut depth,
        &types,
        Item::Var { tpe: VarType::Real, alias_of: Some(4) },
    );
    assert_eq!(first, HierarchyAction::Var { tpe: VarType::Real, alias_of: None });
    types.push(VarType::Real);
    types.push(VarType::BitVec(3));
    let alias = hierarchy_step(
        &mut depth,
        &types,
        Item::Var { tpe: VarType::BitVec(7), alias_of: Some(5) },
    );
    assert_eq!(alias, HierarchyAction::Var { tpe: VarType::BitVec(3), alias_of: Some(1) });
    // closing the top level is not passed on
    assert_eq!(hierarchy_step(&mut depth, &types, Item::UpScope), HierarchyAction::Skip);
    assert_eq!(hierarchy_step(&mut depth, &types, Item::Scope), HierarchyAction::Scope);
    assert_eq!(depth, 1);
    assert_eq!(hierarchy_step(&mut depth, &types, Item::UpScope), HierarchyAction::UpScope);
    assert_eq!(depth, 0);
}
