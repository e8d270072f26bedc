use parking_lot_core::cycle::normalize_cycle;
use parking_lot_core::wait_graph::WaitGraphNode;

#[test]
fn a_cycle_is_turned_to_its_smallest_node() {
    assert_eq!(normalize_cycle(&[3usize, 1, 2]), vec![1, 2, 3]);
    assert_eq!(normalize_cycle(&[9usize, 8, 7, 6]), vec![6, 9, 8, 7]);
    assert_eq!(normalize_cycle(&[1usize, 5, 4]), vec![1, 5, 4]);
}

#[test]
fn an_empty_cycle_stays_empty() {
    assert_eq!(normalize_cycle::<usize>(&[]), Vec::<usize>::new());
}

#[test]
fn a_cycle_of_one_stays_as_it_is() {
    assert_eq!(normalize_cycle(&[42usize]), vec![42]);
}

#[test]
fn a_cycle_starts_with_the_first_of_equal_smallest_nodes() {
    assert_eq!(normalize_cycle(&[(2u8), 0, 1, 0, 3]), vec![0, 1, 0, 3, 2]);
}

#[test]
fn threads_come_before_resources_in_a_cycle() {
    let cycle = [WaitGraphNode::Resource(0), WaitGraphNode::Thread(7), WaitGraphNode::Resource(3)];
    assert_eq!(
        normalize_cycle(&cycle),
        vec![WaitGraphNode::Thread(7), WaitGraphNode::Resource(3), WaitGraphNode::Resource(0)]
    );
}

#[test]
fn normalizing_twice_changes_nothing_more() {
    let once = normalize_cycle(&[5usize, 2, 8, 2, 6]);
    assert_eq!(normalize_cycle(&once), once);
}

#[test]
fn each_turn_of_a_cycle_has_the_same_normal_form() {
    let expected = vec![1usize, 7, 4, 9];
    assert_eq!(normalize_cycle(&[1usize, 7, 4, 9]), expected);
    assert_eq!(normalize_cycle(&[7usize, 4, 9, 1]), expected);
    assert_eq!(normalize_cycle(&[4usize, 9, 1, 7]), expected);
    assert_eq!(normalize_cycle(&[9usize, 1, 7, 4]), expected);
}
