use blocktree::backend::{Block, Error, ImportOperation, MemoryBackend, Operation};
use blocktree::route::tree_route;
use blocktree::state::MemoryState;

fn import(block: Block) -> ImportOperation {
    ImportOperation { block, state: MemoryState::new() }
}

#[test]
fn all_traits_for_importer_are_satisfied() {
    let mut backend = MemoryBackend::with_genesis(Block::new(1, None), MemoryState::new());
    let empty = Operation { import_block: vec![], set_head: None };
    assert_eq!(backend.commit(empty), Ok(()));
    assert_eq!(backend.head(), 1);
}

#[test]
fn genesis_tree_lookups() {
    let backend = MemoryBackend::with_genesis(Block::new(1, None), MemoryState::new());
    assert_eq!(backend.head(), 1);
    assert_eq!(backend.genesis(), 1);
    assert_eq!(backend.contains(1), Ok(true));
    assert_eq!(backend.contains(2), Ok(false));
    assert_eq!(backend.is_canon(1), Ok(true));
    assert!(matches!(backend.is_canon(2), Err(Error::NotExist)));
    assert_eq!(backend.lookup_canon_depth(0), Ok(Some(1)));
    assert_eq!(backend.lookup_canon_depth(1), Ok(None));
    assert_eq!(backend.depth_at(1), Ok(0));
    assert!(matches!(backend.depth_at(7), Err(Error::NotExist)));
    let children = backend.children_at(1).unwrap();
    assert!(children.is_empty());
    let block = backend.block_at(1).unwrap();
    assert_eq!(block.hash(), 1);
    assert_eq!(block.parent_hash(), None);
}

#[test]
fn state_store_read_write_remove() {
    let mut state = MemoryState::new();
    assert_eq!(state.read_storage(b"key"), None);
    state.write_storage(b"key".to_vec(), b"value".to_vec());
    assert_eq!(state.read_storage(b"key"), Some(b"value".to_vec()));
    state.write_storage(b"key".to_vec(), b"other".to_vec());
    assert_eq!(state.read_storage(b"key"), Some(b"other".to_vec()));
    state.remove_storage(b"key");
    assert_eq!(state.read_storage(b"key"), None);
}

#[test]
fn state_clone_is_independent() {
    let mut state = MemoryState::new();
    state.write_storage(b"a".to_vec(), vec![1]);
    let mut copy = state.clone();
    copy.write_storage(b"a".to_vec(), vec![2]);
    assert_eq!(state.read_storage(b"a"), Some(vec![1]));
    assert_eq!(copy.read_storage(b"a"), Some(vec![2]));
}

#[test]
fn state_at_returns_copy() {
    let mut genesis_state = MemoryState::new();
    genesis_state.write_storage(b"k".to_vec(), vec![9]);
    let backend = MemoryBackend::with_genesis(Block::new(1, None), genesis_state);
    let mut copy = backend.state_at(1).unwrap();
    assert_eq!(copy.read_storage(b"k"), Some(vec![9]));
    copy.remove_storage(b"k");
    let fresh = backend.state_at(1).unwrap();
    assert_eq!(fresh.read_storage(b"k"), Some(vec![9]));
}

#[test]
fn route_same_block_is_empty() {
    let backend = MemoryBackend::with_genesis(Block::new(1, None), MemoryState::new());
    let route = tree_route(&backend, 1, 1).unwrap();
    assert_eq!(route.common_block, 1);
    assert!(route.retracted.is_empty());
    assert!(route.enacted.is_empty());
}

#[test]
fn route_missing_block_not_exist() {
    let backend = MemoryBackend::with_genesis(Block::new(1, None), MemoryState::new());
    assert!(matches!(tree_route(&backend, 1, 2), Err(Error::NotExist)));
    assert!(matches!(tree_route(&backend, 2, 1), Err(Error::NotExist)));
}

#[test]
fn error_messages() {
    assert_eq!(Error::IO.as_str(), "IO failure");
    assert_eq!(Error::InvalidOperation.as_str(), "The operation provided is invalid");
    assert_eq!(Error::ImportingGenesis.as_str(), "Trying to import another genesis");
    assert_eq!(Error::NotExist.as_str(), "Block does not exist");
}

#[test]
fn import_with_head_switch() {
    let mut backend = MemoryBackend::with_genesis(Block::new(1, None), MemoryState::new());
    let op = Operation { import_block: vec![import(Block::new(2, Some(1)))], set_head: Some(2) };
    assert_eq!(backend.commit(op), Ok(()));
    assert_eq!(backend.head(), 2);
    assert_eq!(backend.lookup_canon_depth(0), Ok(Some(1)));
    assert_eq!(backend.lookup_canon_depth(1), Ok(Some(2)));
    assert_eq!(backend.is_canon(2), Ok(true));
    assert_eq!(backend.depth_at(2), Ok(1));
}

#[test]
fn sibling_import_stays_non_canonical() {
    let mut backend = MemoryBackend::with_genesis(Block::new(1, None), MemoryState::new());
    let a = Operation { import_block: vec![import(Block::new(2, Some(1)))], set_head: Some(2) };
    assert_eq!(backend.commit(a), Ok(()));
    let b = Operation { import_block: vec![import(Block::new(3, Some(1)))], set_head: None };
    assert_eq!(backend.commit(b), Ok(()));
    assert_eq!(backend.contains(3), Ok(true));
    assert_eq!(backend.is_canon(3), Ok(false));
    let mut children = backend.children_at(1).unwrap();
    children.sort();
    assert_eq!(children, vec![2, 3]);
}

#[test]
fn reorg_to_sibling() {
    let mut backend = MemoryBackend::with_genesis(Block::new(1, None), MemoryState::new());
    let a = Operation { import_block: vec![import(Block::new(2, Some(1)))], set_head: Some(2) };
    assert_eq!(backend.commit(a), Ok(()));
    let b = Operation { import_block: vec![import(Block::new(3, Some(1)))], set_head: None };
    assert_eq!(backend.commit(b), Ok(()));
    let route = tree_route(&backend, 2, 3).unwrap();
    assert_eq!(route.common_block, 1);
    assert_eq!(route.retracted, vec![2]);
    assert_eq!(route.enacted, vec![3]);
    let switch = Operation { import_block: vec![], set_head: Some(3) };
    assert_eq!(backend.commit(switch), Ok(()));
    assert_eq!(backend.is_canon(2), Ok(false));
    assert_eq!(backend.is_canon(3), Ok(true));
    assert_eq!(backend.lookup_canon_depth(0), Ok(Some(1)));
    assert_eq!(backend.lookup_canon_depth(1), Ok(Some(3)));
}

#[test]
fn unknown_parent_is_invalid() {
    let mut backend = MemoryBackend::with_genesis(Block::new(1, None), MemoryState::new());
    let op = Operation { import_block: vec![import(Block::new(2, Some(42)))], set_head: None };
    assert_eq!(backend.commit(op), Err(Error::InvalidOperation));
    assert_eq!(backend.contains(2), Ok(false));
}

#[test]
fn second_genesis_is_rejected() {
    let mut backend = MemoryBackend::with_genesis(Block::new(1, None), MemoryState::new());
    let op = Operation { import_block: vec![import(Block::new(2, None))], set_head: None };
    assert_eq!(backend.commit(op), Err(Error::ImportingGenesis));
    assert_eq!(backend.contains(2), Ok(false));
}

#[test]
fn failed_commit_leaves_tree_unchanged() {
    let mut backend = MemoryBackend::with_genesis(Block::new(1, None), MemoryState::new());
    let a = Operation { import_block: vec![import(Block::new(2, Some(1)))], set_head: Some(2) };
    assert_eq!(backend.commit(a), Ok(()));
    let bad = Operation {
        import_block: vec![import(Block::new(3, Some(1))), import(Block::new(4, Some(9)))],
        set_head: Some(3),
    };
    assert_eq!(backend.commit(bad), Err(Error::InvalidOperation));
    assert_eq!(backend.contains(3), Ok(false));
    assert_eq!(backend.contains(4), Ok(false));
    assert_eq!(backend.head(), 2);
    assert_eq!(backend.lookup_canon_depth(1), Ok(Some(2)));
}

#[test]
fn reorg_to_current_head_changes_nothing() {
    let mut backend = MemoryBackend::with_genesis(Block::new(1, None), MemoryState::new());
    let a = Operation { import_block: vec![import(Block::new(2, Some(1)))], set_head: Some(2) };
    assert_eq!(backend.commit(a), Ok(()));
    let again = Operation { import_block: vec![], set_head: Some(2) };
    assert_eq!(backend.commit(again), Ok(()));
    assert_eq!(backend.head(), 2);
    assert_eq!(backend.is_canon(1), Ok(true));
    assert_eq!(backend.is_canon(2), Ok(true));
    assert_eq!(backend.lookup_canon_depth(0), Ok(Some(1)));
    assert_eq!(backend.lookup_canon_depth(1), Ok(Some(2)));
}

#[test]
fn out_of_order_batch_resolves() {
    let mut backend = MemoryBackend::with_genesis(Block::new(1, None), MemoryState::new());
    let op = Operation {
        import_block: vec![
            import(Block::new(4, Some(3))),
            import(Block::new(3, Some(2))),
            import(Block::new(2, Some(1))),
        ],
        set_head: Some(4),
    };
    assert_eq!(backend.commit(op), Ok(()));
    assert_eq!(backend.head(), 4);
    assert_eq!(backend.depth_at(2), Ok(1));
    assert_eq!(backend.depth_at(3), Ok(2));
    assert_eq!(backend.depth_at(4), Ok(3));
    assert_eq!(backend.is_canon(3), Ok(true));
    assert_eq!(backend.lookup_canon_depth(3), Ok(Some(4)));
}

#[test]
fn duplicate_hash_is_invalid() {
    let mut backend = MemoryBackend::with_genesis(Block::new(1, None), MemoryState::new());
    let op = Operation { import_block: vec![import(Block::new(1, Some(1)))], set_head: None };
    assert_eq!(backend.commit(op), Err(Error::InvalidOperation));
    let twice = Operation {
        import_block: vec![import(Block::new(2, Some(1))), import(Block::new(2, Some(1)))],
        set_head: None,
    };
    assert_eq!(backend.commit(twice), Err(Error::InvalidOperation));
    assert_eq!(backend.contains(2), Ok(false));
}

#[test]
fn absent_head_target_is_invalid() {
    let mut backend = MemoryBackend::with_genesis(Block::new(1, None), MemoryState::new());
    let op = Operation { import_block: vec![import(Block::new(2, Some(1)))], set_head: Some(9) };
    assert_eq!(backend.commit(op), Err(Error::InvalidOperation));
    assert_eq!(backend.contains(2), Ok(false));
}

#[test]
fn deep_reorg_across_forks() {
    let mut backend = MemoryBackend::with_genesis(Block::new(1, None), MemoryState::new());
    let main = Operation {
        import_block: vec![import(Block::new(2, Some(1))), import(Block::new(3, Some(2)))],
        set_head: Some(3),
    };
    assert_eq!(backend.commit(main), Ok(()));
    let fork = Operation {
        import_block: vec![
            import(Block::new(12, Some(1))),
            import(Block::new(13, Some(12))),
            import(Block::new(14, Some(13))),
        ],
        set_head: None,
    };
    assert_eq!(backend.commit(fork), Ok(()));
    let route = tree_route(&backend, 3, 14).unwrap();
    assert_eq!(route.common_block, 1);
    assert_eq!(route.retracted, vec![3, 2]);
    assert_eq!(route.enacted, vec![12, 13, 14]);
    let switch = Operation { import_block: vec![], set_head: Some(14) };
    assert_eq!(backend.commit(switch), Ok(()));
    assert_eq!(backend.head(), 14);
    assert_eq!(backend.is_canon(2), Ok(false));
    assert_eq!(backend.is_canon(3), Ok(false));
    assert_eq!(backend.is_canon(13), Ok(true));
    assert_eq!(backend.lookup_canon_depth(2), Ok(Some(13)));
    assert_eq!(backend.lookup_canon_depth(3), Ok(Some(14)));
}

#[test]
fn imported_state_is_kept_per_block() {
    let mut genesis_state = MemoryState::new();
    genesis_state.write_storage(b"slot".to_vec(), vec![0]);
    let mut backend = MemoryBackend::with_genesis(Block::new(1, None), genesis_state);
    let mut child_state = MemoryState::new();
    child_state.write_storage(b"slot".to_vec(), vec![1]);
    let op = Operation {
        import_block: vec![ImportOperation { block: Block::new(2, Some(1)), state: child_state }],
        set_head: Some(2),
    };
    assert_eq!(backend.commit(op), Ok(()));
    let g = backend.state_at(1).unwrap();
    let c = backend.state_at(2).unwrap();
    assert_eq!(g.read_storage(b"slot"), Some(vec![0]));
    assert_eq!(c.read_storage(b"slot"), Some(vec![1]));
}
