use proto_array::checkpoint::{Checkpoint, Epoch, Slot};
use proto_array::error::Error;
use proto_array::fork_choice::ForkChoice;
use proto_array::hash::Hash256;
use proto_array::proto_array::ProtoArray;

fn checkpoint(epoch: u64, root: Hash256) -> Checkpoint {
    Checkpoint {
        epoch: Epoch::new(epoch),
        root,
    }
}

fn genesis() -> Checkpoint {
    checkpoint(1, Hash256::zero())
}

/// A root whose order among the roots is unlike the order of `i`.
fn scattered(i: u64) -> Hash256 {
    if i == 0 {
        return Hash256::zero();
    }
    let x = i.wrapping_mul(0x9e37_79b9_7f4a_7c15);
    Hash256 {
        hi: ((x % 7) as u128) << 100,
        lo: ((x as u128) << 64) | i as u128,
    }
}

/// A chain of `n` blocks under the anchor, every third block with a sibling.
fn scattered_tree(n: u64) -> (ProtoArray, Vec<Hash256>) {
    let mut array = ProtoArray::new(Slot::new(0), Hash256::zero(), genesis(), genesis());
    let mut roots = vec![Hash256::zero()];
    let mut tip = Hash256::zero();
    for i in 1..=n {
        let root = scattered(i);
        let parent = if i % 3 == 0 { roots[roots.len() - 2] } else { tip };
        assert_eq!(
            array.insert_block(Slot::new(i), root, parent, genesis(), genesis()),
            Ok(())
        );
        if i % 3 != 0 {
            tip = root;
        }
        roots.push(root);
    }
    (array, roots)
}

#[test]
fn every_inserted_root_is_found_at_its_position() {
    let (array, roots) = scattered_tree(200);
    assert_eq!(array.len(), 201);
    for (i, root) in roots.iter().enumerate() {
        assert_eq!(array.index_of(root), Some(i));
        assert!(array.contains(root));
        assert_eq!(array.node(i).unwrap().root, *root);
    }
    assert_eq!(array.node(201), None);
    for i in 201..260 {
        assert_eq!(array.index_of(&scattered(i)), None);
        assert!(!array.contains(&scattered(i)));
    }
    assert_eq!(array.index_of(&Hash256 { hi: u128::MAX, lo: u128::MAX }), None);
    assert_eq!(array.index_of(&Hash256 { hi: 0, lo: 1 }), None);
}

#[test]
fn every_root_is_refused_a_second_time() {
    let (mut array, roots) = scattered_tree(60);
    for root in roots.iter() {
        assert_eq!(
            array.insert_block(Slot::new(99), *root, Hash256::zero(), genesis(), genesis()),
            Err(Error::DuplicateRoot)
        );
    }
    assert_eq!(array.len(), 61);
}

#[test]
fn roots_are_found_after_pruning() {
    let (mut array, roots) = scattered_tree(90);
    let finalized = 40;
    let kept: Vec<usize> = (0..roots.len())
        .filter(|&i| array.is_descendant(finalized, i))
        .collect();
    assert!(kept.len() > 1 && kept.len() < 60);
    assert_eq!(kept[0], finalized);
    assert_eq!(array.prune(roots[finalized]), Ok(()));
    assert_eq!(array.len(), kept.len());
    for (i, root) in roots.iter().enumerate() {
        match kept.iter().position(|&k| k == i) {
            Some(at) => {
                assert_eq!(array.index_of(root), Some(at));
                assert_eq!(array.node(at).unwrap().root, *root);
            }
            None => assert_eq!(array.index_of(root), None),
        }
    }
    // Parents stand before their children, and only the anchor has none.
    assert_eq!(array.node(0).unwrap().parent, None);
    for at in 1..array.len() {
        let parent = array.node(at).unwrap().parent.expect("only the anchor has no parent");
        assert!(parent < at);
    }
    // New blocks are entered into the table as before.
    let fresh = Hash256 { hi: 3, lo: 3 };
    assert_eq!(
        array.insert_block(Slot::new(100), fresh, roots[finalized], genesis(), genesis()),
        Ok(())
    );
    assert_eq!(array.index_of(&fresh), Some(kept.len()));
}

#[test]
fn a_new_block_moves_the_head_to_itself_or_not_at_all() {
    let (array, roots) = scattered_tree(30);
    let mut settled = array;
    settled.apply_deltas(&vec![(4, 3), (17, 2), (29, 2)]).unwrap();
    let before = settled.find_head(genesis(), genesis()).unwrap();
    for parent in 0..roots.len() {
        for hi in [0u128, 1 << 101, u128::MAX] {
            let (mut array, _) = scattered_tree(30);
            array.apply_deltas(&vec![(4, 3), (17, 2), (29, 2)]).unwrap();
            let fresh = Hash256 { hi, lo: 77 };
            array
                .insert_block(Slot::new(50), fresh, roots[parent], genesis(), genesis())
                .unwrap();
            array.apply_deltas(&vec![]).unwrap();
            let after = array.find_head(genesis(), genesis()).unwrap();
            assert!(after == before || after == fresh);
        }
    }
}

#[test]
fn a_justified_block_without_children_is_the_head() {
    let (mut array, roots) = scattered_tree(12);
    array.apply_deltas(&vec![(3, 9)]).unwrap();
    let leaf = *roots.last().unwrap();
    assert_eq!(
        array.find_head(checkpoint(5, leaf), checkpoint(4, roots[1])),
        Ok(leaf)
    );
}

#[test]
fn a_propagation_without_deltas_settles_nothing_anew() {
    let (mut array, _) = scattered_tree(25);
    array.apply_deltas(&vec![(10, 4), (11, 4), (20, 1)]).unwrap();
    let nodes: Vec<_> = (0..array.len()).map(|i| array.node(i)).collect();
    assert_eq!(array.apply_deltas(&vec![]), Ok(()));
    assert_eq!(
        (0..array.len()).map(|i| array.node(i)).collect::<Vec<_>>(),
        nodes
    );
}

#[test]
fn a_node_weighs_at_least_what_its_children_weigh() {
    let (array, roots) = scattered_tree(40);
    let mut fc = ForkChoice::new(Slot::new(0), Hash256::zero(), genesis(), genesis());
    for i in 1..array.len() {
        let node = array.node(i).unwrap();
        let parent = array.node(node.parent.unwrap()).unwrap().root;
        fc.insert_block(node.slot, node.root, parent, genesis(), genesis())
            .unwrap();
    }
    let mut balances = vec![];
    for v in 0..25usize {
        fc.process_vote_change(v, roots[(v * 7) % roots.len()], Epoch::new(2), 0)
            .unwrap();
        balances.push(1 + (v as u64 * 13) % 5);
    }
    fc.find_head(genesis(), genesis(), &balances).unwrap();
    let tree = fc.proto_array();
    assert_eq!(tree.node(0).unwrap().weight, balances.iter().sum::<u64>());
    for p in 0..tree.len() {
        let children: u64 = (0..tree.len())
            .map(|c| tree.node(c).unwrap())
            .filter(|c| c.parent == Some(p))
            .map(|c| c.weight)
            .sum();
        assert!(tree.node(p).unwrap().weight >= children);
        let direct: u64 = (0..25usize)
            .filter(|v| roots[(v * 7) % roots.len()] == tree.node(p).unwrap().root)
            .map(|v| balances[v])
            .sum();
        assert_eq!(tree.node(p).unwrap().weight, children + direct);
    }
}

#[test]
fn roots_are_spelled_by_their_bytes() {
    let mut bytes = [0u8; 32];
    assert_eq!(Hash256::from_be_bytes(&bytes), Hash256::zero());
    assert_eq!(Hash256::zero().to_be_bytes(), bytes);
    bytes[31] = 7;
    assert_eq!(Hash256::from_be_bytes(&bytes), Hash256::from_low_u64_be(7));
    assert_eq!(Hash256::from_low_u64_be(7).to_be_bytes(), bytes);
    bytes[0] = 0x80;
    bytes[15] = 1;
    bytes[16] = 2;
    bytes[23] = 0xff;
    let root = Hash256::from_be_bytes(&bytes);
    assert_eq!(
        root,
        Hash256 {
            hi: (0x80u128 << 120) | 1,
            lo: (2u128 << 120) | (0xffu128 << 64) | 7,
        }
    );
    assert_eq!(root.to_be_bytes(), bytes);
    assert_eq!(root.low_u64(), 7);
    let all = [0xffu8; 32];
    assert_eq!(
        Hash256::from_be_bytes(&all),
        Hash256 { hi: u128::MAX, lo: u128::MAX }
    );
    assert_eq!(Hash256 { hi: u128::MAX, lo: u128::MAX }.to_be_bytes(), all);
    assert_eq!(
        Hash256::from_low_u64_be(0x0102_0304_0506_0708).to_be_bytes()[24..],
        [1, 2, 3, 4, 5, 6, 7, 8]
    );
}

#[test]
fn the_order_of_roots_is_the_order_of_their_bytes() {
    let mut a = [0u8; 32];
    let mut b = [0u8; 32];
    a[3] = 1;
    a[31] = 0xff;
    b[3] = 2;
    assert!(a < b);
    assert!(Hash256::from_be_bytes(&a).precedes(&Hash256::from_be_bytes(&b)));
    assert!(!Hash256::from_be_bytes(&b).precedes(&Hash256::from_be_bytes(&a)));
    let mut c = [0u8; 32];
    let mut d = [0u8; 32];
    c[15] = 9;
    c[16] = 0xff;
    d[15] = 9;
    d[16] = 0xff;
    d[20] = 1;
    assert!(c < d);
    assert!(Hash256::from_be_bytes(&c).precedes(&Hash256::from_be_bytes(&d)));
    assert!(Hash256::from_be_bytes(&c).precedes(&Hash256::from_be_bytes(&a)));
}
