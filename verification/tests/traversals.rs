use btt::traverse::path_sum_within;
use btt::{
    Digest, Heapless, HeaplessLoop, HeaplessOption, Node, Simple, Store, Traverse, TraverseError,
    VecLoop, VecOption,
};

fn digest(n: u32) -> Digest {
    let mut d = [0u8; 32];
    d[..4].copy_from_slice(&n.to_le_bytes());
    d[31] = 0xA5;
    d
}

struct Builder {
    store: Store,
    next: u32,
}

impl Builder {
    fn new() -> Builder {
        Builder { store: Store::new(), next: 0 }
    }

    fn put(&mut self, node: Node) -> Digest {
        let d = digest(self.next);
        self.next += 1;
        assert_eq!(self.store.insert(d, node), None);
        d
    }

    fn leaf(&mut self, value: u32) -> Digest {
        self.put(Node::Leaf(value))
    }

    fn branch(&mut self, left: Digest, right: Digest) -> Digest {
        self.put(Node::Branch(left, right))
    }

    /// A chain of `depth` branches that goes down to the left; every right
    /// child is a leaf of value 1, and so is the last left child.
    fn left_spine(&mut self, depth: u32) -> Digest {
        let one = self.leaf(1);
        let mut top = one;
        for _ in 0..depth {
            top = self.branch(top, one);
        }
        top
    }

    /// The same chain, going down to the right.
    fn right_spine(&mut self, depth: u32) -> Digest {
        let one = self.leaf(1);
        let mut top = one;
        for _ in 0..depth {
            top = self.branch(one, top);
        }
        top
    }
}

fn all_six(store: &Store, root: Digest) -> [Result<u32, TraverseError>; 6] {
    [
        Simple.traverse_sum(store, root),
        Heapless.traverse_sum(store, root),
        HeaplessLoop.traverse_sum(store, root),
        HeaplessOption.traverse_sum(store, root),
        VecLoop.traverse_sum(store, root),
        VecOption.traverse_sum(store, root),
    ]
}

#[test]
fn sample_tree_sums_to_21_in_all_six() {
    let mut b = Builder::new();
    let one = b.leaf(1);
    let two = b.leaf(2);
    let branch_2 = b.branch(one, two);
    let branch_4 = b.branch(branch_2, branch_2);
    let branch_8 = b.branch(branch_4, branch_4);
    let inner = b.branch(branch_4, branch_2);
    let root = b.branch(branch_8, inner);

    assert_eq!(all_six(&b.store, branch_2), [Ok(3); 6]);
    assert_eq!(all_six(&b.store, branch_4), [Ok(6); 6]);
    assert_eq!(all_six(&b.store, branch_8), [Ok(12); 6]);
    assert_eq!(all_six(&b.store, inner), [Ok(9); 6]);
    assert_eq!(all_six(&b.store, root), [Ok(21); 6]);
}

#[test]
fn dyn_dispatch_over_the_six_gives_21() {
    let mut b = Builder::new();
    let one = b.leaf(1);
    let two = b.leaf(2);
    let branch_2 = b.branch(one, two);
    let branch_4 = b.branch(branch_2, branch_2);
    let branch_8 = b.branch(branch_4, branch_4);
    let inner = b.branch(branch_4, branch_2);
    let root = b.branch(branch_8, inner);

    let traversals: Vec<(&str, Box<dyn Traverse>)> = vec![
        ("simple", Box::new(Simple)),
        ("heapless", Box::new(Heapless)),
        ("heapless_loop", Box::new(HeaplessLoop)),
        ("heapless_option", Box::new(HeaplessOption)),
        ("vec_loop", Box::new(VecLoop)),
        ("vec_option", Box::new(VecOption)),
    ];
    for (name, traversal) in traversals {
        assert_eq!(traversal.traverse_sum(&b.store, root), Ok(21), "{}", name);
    }
}

#[test]
fn shared_leaf_counts_once_per_reference() {
    let mut b = Builder::new();
    let five = b.leaf(5);
    let twice = b.branch(five, five);
    assert_eq!(all_six(&b.store, twice), [Ok(10); 6]);
    let four_times = b.branch(twice, twice);
    assert_eq!(all_six(&b.store, four_times), [Ok(20); 6]);
    let five_times = b.branch(four_times, five);
    assert_eq!(all_six(&b.store, five_times), [Ok(25); 6]);
}

#[test]
fn shared_subtrees_double_at_every_level() {
    let mut b = Builder::new();
    let mut top = b.leaf(3);
    for _ in 0..12 {
        top = b.branch(top, top);
    }
    assert_eq!(all_six(&b.store, top), [Ok(3 * 4096); 6]);
}

#[test]
fn leaf_root_returns_its_value() {
    let mut b = Builder::new();
    let seven = b.leaf(7);
    let zero = b.leaf(0);
    let most = b.leaf(u32::MAX);
    assert_eq!(all_six(&b.store, seven), [Ok(7); 6]);
    assert_eq!(all_six(&b.store, zero), [Ok(0); 6]);
    assert_eq!(all_six(&b.store, most), [Ok(u32::MAX); 6]);
}

#[test]
fn sum_may_reach_the_largest_value() {
    let mut b = Builder::new();
    let big = b.leaf(u32::MAX - 3);
    let one = b.leaf(1);
    let two = b.branch(one, one);
    let three = b.branch(two, one);
    let root = b.branch(big, three);
    assert_eq!(all_six(&b.store, root), [Ok(u32::MAX); 6]);
}

#[test]
fn missing_root_is_an_error() {
    let b = Builder::new();
    assert_eq!(all_six(&b.store, digest(9)), [Err(TraverseError::MissingNode); 6]);
}

#[test]
fn missing_child_is_an_error_not_a_smaller_sum() {
    let mut b = Builder::new();
    let one = b.leaf(1);
    let absent = digest(1000);
    let right_gone = b.branch(one, absent);
    let left_gone = b.branch(absent, one);
    let deep = b.branch(one, right_gone);
    let deeper = b.branch(deep, one);
    for root in [right_gone, left_gone, deep, deeper] {
        assert_eq!(all_six(&b.store, root), [Err(TraverseError::MissingNode); 6]);
    }
}

#[test]
fn chase_left_on_a_bounded_stack_takes_32_deferred_children() {
    let mut b = Builder::new();
    let fits = b.left_spine(32);
    assert_eq!(HeaplessLoop.traverse_sum(&b.store, fits), Ok(33));
    assert_eq!(HeaplessOption.traverse_sum(&b.store, fits), Ok(33));
    assert_eq!(VecLoop.traverse_sum(&b.store, fits), Ok(33));
    assert_eq!(VecOption.traverse_sum(&b.store, fits), Ok(33));
}

#[test]
fn chase_left_on_a_bounded_stack_rejects_a_33rd_deferred_child() {
    let mut b = Builder::new();
    let too_deep = b.left_spine(33);
    assert_eq!(
        HeaplessLoop.traverse_sum(&b.store, too_deep),
        Err(TraverseError::CapacityExceeded)
    );
    assert_eq!(
        HeaplessOption.traverse_sum(&b.store, too_deep),
        Err(TraverseError::CapacityExceeded)
    );
    assert_eq!(VecLoop.traverse_sum(&b.store, too_deep), Ok(34));
    assert_eq!(VecOption.traverse_sum(&b.store, too_deep), Ok(34));
}

#[test]
fn push_both_on_a_bounded_stack_takes_31_levels() {
    let mut b = Builder::new();
    let fits = b.left_spine(31);
    assert_eq!(all_six(&b.store, fits), [Ok(32); 6]);
}

#[test]
fn push_both_on_a_bounded_stack_rejects_a_32nd_level() {
    let mut b = Builder::new();
    let too_deep = b.left_spine(32);
    assert_eq!(Heapless.traverse_sum(&b.store, too_deep), Err(TraverseError::CapacityExceeded));
    assert_eq!(Simple.traverse_sum(&b.store, too_deep), Ok(33));
}

#[test]
fn right_spine_needs_no_room_however_deep() {
    let mut b = Builder::new();
    let root = b.right_spine(200);
    assert_eq!(all_six(&b.store, root), [Ok(201); 6]);
}

#[test]
fn growable_stacks_take_a_deep_left_spine() {
    let mut b = Builder::new();
    let root = b.left_spine(500);
    assert_eq!(Simple.traverse_sum(&b.store, root), Ok(501));
    assert_eq!(VecLoop.traverse_sum(&b.store, root), Ok(501));
    assert_eq!(VecOption.traverse_sum(&b.store, root), Ok(501));
    assert_eq!(Heapless.traverse_sum(&b.store, root), Err(TraverseError::CapacityExceeded));
    assert_eq!(HeaplessLoop.traverse_sum(&b.store, root), Err(TraverseError::CapacityExceeded));
    assert_eq!(HeaplessOption.traverse_sum(&b.store, root), Err(TraverseError::CapacityExceeded));
}

#[test]
fn the_error_met_first_is_the_one_returned() {
    // A left spine of 40 branches that ends in a digest the store lacks: the
    // bounded stacks run out of room on the way down, before the missing
    // digest is visited; the growable ones reach it.
    let mut b = Builder::new();
    let one = b.leaf(1);
    let mut top = digest(5000);
    for _ in 0..40 {
        top = b.branch(top, one);
    }
    assert_eq!(Simple.traverse_sum(&b.store, top), Err(TraverseError::MissingNode));
    assert_eq!(VecLoop.traverse_sum(&b.store, top), Err(TraverseError::MissingNode));
    assert_eq!(VecOption.traverse_sum(&b.store, top), Err(TraverseError::MissingNode));
    assert_eq!(Heapless.traverse_sum(&b.store, top), Err(TraverseError::CapacityExceeded));
    assert_eq!(HeaplessLoop.traverse_sum(&b.store, top), Err(TraverseError::CapacityExceeded));
    assert_eq!(HeaplessOption.traverse_sum(&b.store, top), Err(TraverseError::CapacityExceeded));

    // A missing left child is visited before the deep spine to its right.
    let mut b = Builder::new();
    let spine = b.left_spine(40);
    let root = b.branch(digest(5000), spine);
    assert_eq!(all_six(&b.store, root), [Err(TraverseError::MissingNode); 6]);
}

#[test]
fn the_store_is_left_as_it_was() {
    let mut b = Builder::new();
    let root = b.left_spine(40);
    let before = b.store.len();
    let _ = all_six(&b.store, root);
    assert_eq!(b.store.len(), before);
    assert_eq!(Simple.traverse_sum(&b.store, root), Ok(41));
    assert_eq!(HeaplessLoop.traverse_sum(&b.store, root), Err(TraverseError::CapacityExceeded));
    assert_eq!(Simple.traverse_sum(&b.store, root), Ok(41));
}

#[test]
fn path_sum_within_checks_depth_and_size() {
    let mut b = Builder::new();
    let root = b.left_spine(5);
    assert_eq!(path_sum_within(&b.store, &root, 5), Some(6));
    assert_eq!(path_sum_within(&b.store, &root, 100), Some(6));
    assert_eq!(path_sum_within(&b.store, &root, 4), None);
    assert_eq!(path_sum_within(&b.store, &root, 0), None);

    let big = b.leaf(u32::MAX);
    let one = b.leaf(1);
    let too_much = b.branch(big, one);
    assert_eq!(path_sum_within(&b.store, &big, 0), Some(u32::MAX));
    assert_eq!(path_sum_within(&b.store, &too_much, 3), None);

    // A digest that the store lacks counts as nothing.
    assert_eq!(path_sum_within(&b.store, &digest(7777), 0), Some(0));
}

#[test]
fn path_sum_within_rejects_a_cycle() {
    let mut store = Store::new();
    let a = digest(1);
    let c = digest(2);
    store.insert(a, Node::Branch(c, c));
    store.insert(c, Node::Branch(a, a));
    assert_eq!(path_sum_within(&store, &a, 16), None);
}

#[test]
fn a_sum_from_path_sum_within_is_what_the_traversals_return() {
    let mut b = Builder::new();
    let one = b.leaf(1);
    let two = b.leaf(2);
    let branch_2 = b.branch(one, two);
    let branch_4 = b.branch(branch_2, branch_2);
    let branch_8 = b.branch(branch_4, branch_4);
    let inner = b.branch(branch_4, branch_2);
    let root = b.branch(branch_8, inner);
    assert_eq!(path_sum_within(&b.store, &root, 31), Some(21));
    assert_eq!(all_six(&b.store, root), [Ok(21); 6]);
}
