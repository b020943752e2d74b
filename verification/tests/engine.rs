use bus::engine::BusError;
use bus::engine::Engine;
use bus::lock_order;

#[test]
fn fresh_nodes_live_apart() {
    let mut e = Engine::new();
    let a = e.new_node();
    let b = e.new_node();
    assert_ne!(a, b);
    assert_ne!(e.get_data(a), e.get_data(b));
    assert_eq!(e.group_size(a), 1);
    assert_eq!(e.link_count(a), 0);
}

#[test]
fn connect_shares_payload() {
    let mut e = Engine::new();
    let a = e.new_node();
    let b = e.new_node();
    e.connect(a, b);
    assert_eq!(e.get_data(a), e.get_data(b));
    assert!(e.linked(a, b));
    assert_eq!(e.group_size(a), 2);
    assert_eq!(e.link_count(a), 1);
}

#[test]
fn connect_twice_changes_nothing() {
    let mut e = Engine::new();
    let a = e.new_node();
    let b = e.new_node();
    e.connect(a, b);
    let data = e.get_data(a);
    let size = e.group_size(a);
    let links = e.link_count(a);
    e.connect(a, b);
    assert_eq!(e.get_data(a), data);
    assert_eq!(e.group_size(a), size);
    assert_eq!(e.link_count(a), links);
    assert!(e.linked(a, b));
}

#[test]
fn merge_keeps_initiator_payload() {
    let mut e = Engine::new();
    let a = e.new_node();
    let b = e.new_node();
    let data_a = e.get_data(a);
    e.connect(a, b);
    assert_eq!(e.get_data(a), data_a);
    assert_eq!(e.get_data(b), data_a);
}

#[test]
fn wiring_a_wired_pair_adds_no_link() {
    // a fourth link around a ring of four never appears: the last pair
    // already shares the group, so the call is a no-op
    let mut e = Engine::new();
    let a = e.new_node();
    let b = e.new_node();
    let c = e.new_node();
    let d = e.new_node();
    e.connect(a, b);
    e.connect(b, c);
    e.connect(c, d);
    e.connect(d, a);
    assert_eq!(e.group_size(a), 4);
    assert_eq!(e.link_count(a), 3);
    assert!(!e.linked(d, a));
}

#[test]
fn cutting_the_bridge_splits_in_two() {
    // a chain a-b-c-d cut at b-c must fall into exactly the two components
    // {a, b} and {c, d}, each with a fresh payload and no cross link
    let mut e = Engine::new();
    let a = e.new_node();
    let b = e.new_node();
    let c = e.new_node();
    let d = e.new_node();
    e.connect(a, b);
    e.connect(b, c);
    e.connect(c, d);
    let old_data = e.get_data(a);
    assert_eq!(e.group_size(a), 4);
    assert_eq!(e.link_count(a), 3);

    assert_eq!(e.disconnect(b, c), Ok(()));
    assert_eq!(e.get_data(a), e.get_data(b));
    assert_eq!(e.get_data(c), e.get_data(d));
    assert_ne!(e.get_data(a), e.get_data(c));
    // no payload survives the split: both sides hold fresh ones
    assert_ne!(e.get_data(a), old_data);
    assert_ne!(e.get_data(c), old_data);
    assert_eq!(e.group_size(a), 2);
    assert_eq!(e.group_size(c), 2);
    assert_eq!(e.link_count(a), 1);
    assert_eq!(e.link_count(c), 1);
    assert!(e.linked(a, b));
    assert!(e.linked(c, d));
    assert!(!e.linked(b, c));
}

#[test]
fn disconnect_without_direct_link_is_refused() {
    let mut e = Engine::new();
    let a = e.new_node();
    let b = e.new_node();
    let c = e.new_node();
    e.connect(a, b);
    e.connect(b, c);
    // a and c share the group through b, but no direct link joins them
    assert_eq!(e.disconnect(a, c), Err(BusError::NoDirectLink));
    // the group is untouched
    assert_eq!(e.get_data(a), e.get_data(c));
    assert_eq!(e.link_count(a), 2);
}

#[test]
fn disconnect_across_groups_is_a_no_op() {
    let mut e = Engine::new();
    let a = e.new_node();
    let b = e.new_node();
    assert_eq!(e.disconnect(a, b), Ok(()));
    assert_ne!(e.get_data(a), e.get_data(b));
}

#[test]
fn merge_drops_tombstones() {
    let mut e = Engine::new();
    let m = e.new_node();
    let n = e.new_node();
    e.connect(m, n);
    e.destroy_node(n);
    assert_eq!(e.group_size(m), 2);
    let p = e.new_node();
    e.connect(p, m);
    // the absorbed group's tombstone was not carried over
    assert_eq!(e.group_size(p), 2);
    assert!(e.linked(p, m));
}

#[test]
fn split_drops_tombstones() {
    let mut e = Engine::new();
    let x = e.new_node();
    let y = e.new_node();
    let z = e.new_node();
    e.connect(x, y);
    e.connect(x, z);
    e.destroy_node(y);
    // the x-z cut splits {x, y} from {z}; the tombstone of y vanishes
    assert_eq!(e.disconnect(x, z), Ok(()));
    assert_ne!(e.get_data(x), e.get_data(z));
    assert_eq!(e.group_size(x), 1);
    assert_eq!(e.link_count(x), 0);
    assert_eq!(e.group_size(z), 1);
}

#[test]
fn chain_rewire_orders_agree() {
    // two rewiring sequences on a chain b1-b2-b3-b4, interleaved both ways,
    // end in the same single group with the same links
    for order in 0..2 {
        let mut e = Engine::new();
        let b1 = e.new_node();
        let b2 = e.new_node();
        let b3 = e.new_node();
        let b4 = e.new_node();
        e.connect(b1, b2);
        e.connect(b2, b3);
        e.connect(b3, b4);
        if order == 0 {
            assert_eq!(e.disconnect(b1, b2), Ok(()));
            assert_eq!(e.disconnect(b3, b4), Ok(()));
            e.connect(b2, b1);
            e.connect(b3, b4);
        } else {
            assert_eq!(e.disconnect(b3, b4), Ok(()));
            e.connect(b3, b4);
            assert_eq!(e.disconnect(b1, b2), Ok(()));
            e.connect(b2, b1);
        }
        assert_eq!(e.get_data(b1), e.get_data(b2));
        assert_eq!(e.get_data(b2), e.get_data(b3));
        assert_eq!(e.get_data(b3), e.get_data(b4));
        assert!(e.linked(b1, b2));
        assert!(e.linked(b2, b3));
        assert!(e.linked(b3, b4));
        assert_eq!(e.group_size(b1), 4);
    }
}

#[test]
fn lock_order_is_agreed_on_both_sides() {
    assert_eq!(lock_order(3, 5), (5, 3));
    assert_eq!(lock_order(5, 3), (5, 3));
    assert_eq!(lock_order(7, 7), (7, 7));
}
