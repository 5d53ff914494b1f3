use planner::IDGenerator;

#[test]
fn first_id_is_1() {
    let mut idg = IDGenerator::new();
    assert_eq!(idg.next_id(), 1);
}

#[test]
fn ids_increase_by_one() {
    let mut idg = IDGenerator::new();
    assert_eq!(idg.next_id(), 1);
    assert_eq!(idg.next_id(), 2);
    assert_eq!(idg.next_id(), 3);
}

