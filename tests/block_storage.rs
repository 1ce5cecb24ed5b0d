use std::collections::BTreeSet;
use std::sync::atomic::{AtomicI32, Ordering};
use std::sync::Arc;

use storages::block_storage::{BlockIdx, BlockStorage};

pub struct DropTest {
    value: Arc<AtomicI32>,
}

impl DropTest {
    pub fn new(value: Arc<AtomicI32>) -> Self {
        value.fetch_add(1, Ordering::SeqCst);
        Self { value }
    }
}

impl Drop for DropTest {
    fn drop(&mut self) {
        self.value.fetch_add(-1, Ordering::SeqCst);
    }
}

fn set_of(items: &[usize]) -> BTreeSet<usize> {
    items.iter().copied().collect()
}

/// Values are dropped when the storage is cleared and when it is dropped.
#[test]
fn drop_test() {
    let mut storage = BlockStorage::<DropTest>::new(10);

    let idx1 = storage.create(3);
    let idx2 = storage.create(15);

    println!("1: {:?}, 2: {:?}", idx1, idx2);

    let value = Arc::new(AtomicI32::new(0));

    let mut block1 = storage.get(idx1).unwrap();
    block1.push(DropTest::new(value.clone()));
    block1.push(DropTest::new(value.clone()));
    block1.push(DropTest::new(value.clone()));
    block1.push(DropTest::new(value.clone()));
    block1.return_key();

    let mut block2 = storage.get(idx2).unwrap();
    block2.push(DropTest::new(value.clone()));
    block2.push(DropTest::new(value.clone()));
    block2.return_key();

    assert!(value.load(Ordering::SeqCst) == 6);
    storage.clear();
    assert!(value.load(Ordering::SeqCst) == 0);

    let idx1 = storage.create(3);
    let idx2 = storage.create(15);

    let mut block1 = storage.get(idx1).unwrap();
    block1.push(DropTest::new(value.clone()));
    block1.push(DropTest::new(value.clone()));
    block1.push(DropTest::new(value.clone()));
    block1.push(DropTest::new(value.clone()));

    let mut block2 = storage.get(idx2).unwrap();
    block2.push(DropTest::new(value.clone()));
    block2.push(DropTest::new(value.clone()));
    assert!(value.load(Ordering::SeqCst) == 6);
    drop(storage);
    assert!(value.load(Ordering::SeqCst) == 0);
}

/// Three runs of 10, 20 and 10 elements with 2, 3 and 2 live values.
fn three_runs(
    storage: &mut BlockStorage<DropTest>,
    value: &Arc<AtomicI32>,
) -> (storages::block_storage::BlockKey, storages::block_storage::BlockKey, storages::block_storage::BlockKey) {
    let idx1 = storage.create(10);
    let idx2 = storage.create(20);
    let idx3 = storage.create(10);

    let mut block1 = storage.get(idx1).unwrap();
    block1.push(DropTest::new(value.clone()));
    block1.push(DropTest::new(value.clone()));
    let idx1 = block1.return_key();

    let mut block2 = storage.get(idx2).unwrap();
    block2.push(DropTest::new(value.clone()));
    block2.push(DropTest::new(value.clone()));
    block2.push(DropTest::new(value.clone()));
    let idx2 = block2.return_key();

    let mut block3 = storage.get(idx3).unwrap();
    block3.push(DropTest::new(value.clone()));
    block3.push(DropTest::new(value.clone()));
    let idx3 = block3.return_key();

    (idx1, idx2, idx3)
}

#[test]
fn remove_isolated_test() {
    let mut storage = BlockStorage::<DropTest>::new(10);
    let value = Arc::new(AtomicI32::new(0));
    let (_idx1, idx2, _idx3) = three_runs(&mut storage, &value);

    assert!(value.load(Ordering::SeqCst) == 7);

    storage.remove(idx2);
    assert!(value.load(Ordering::SeqCst) == 4);

    let mut set = BTreeSet::new();
    set.insert(1);

    assert!(*storage.available_blocks() == set);
}

#[test]
fn remove_left_missing_test() {
    let mut storage = BlockStorage::<DropTest>::new(10);
    let value = Arc::new(AtomicI32::new(0));
    let (idx1, idx2, _idx3) = three_runs(&mut storage, &value);

    assert!(value.load(Ordering::SeqCst) == 7);
    storage.remove(idx1);
    assert!(value.load(Ordering::SeqCst) == 5);
    let mut set = BTreeSet::new();
    set.insert(0);
    assert!(*storage.available_blocks() == set);

    storage.remove(idx2);
    assert!(value.load(Ordering::SeqCst) == 2);

    let mut set = BTreeSet::new();
    set.insert(0);

    assert!(*storage.available_blocks() == set);

    // The freed blocks form one run that can be allocated whole.
    let idx4 = storage.create(30);
    assert!(idx4.idx() == 0);
    assert!(idx4.blocks() == 3);

    assert!(*storage.available_blocks() == BTreeSet::new());
}

#[test]
fn remove_right_missing_test() {
    let mut storage = BlockStorage::<DropTest>::new(10);
    let value = Arc::new(AtomicI32::new(0));
    let (idx1, idx2, _idx3) = three_runs(&mut storage, &value);

    assert!(value.load(Ordering::SeqCst) == 7);

    storage.remove(idx2);
    assert!(value.load(Ordering::SeqCst) == 4);
    let mut set = BTreeSet::new();
    set.insert(1);
    assert!(*storage.available_blocks() == set);

    storage.remove(idx1);
    assert!(value.load(Ordering::SeqCst) == 2);

    let mut set = BTreeSet::new();
    set.insert(0);

    assert!(*storage.available_blocks() == set);

    let idx4 = storage.create(30);
    assert!(idx4.idx() == 0);
    assert!(idx4.blocks() == 3);

    assert!(*storage.available_blocks() == BTreeSet::new());
}

#[test]
fn remove_left_right_missing_test() {
    let mut storage = BlockStorage::<DropTest>::new(10);
    let value = Arc::new(AtomicI32::new(0));
    let (idx1, idx2, idx3) = three_runs(&mut storage, &value);

    assert!(value.load(Ordering::SeqCst) == 7);

    storage.remove(idx1);
    assert!(value.load(Ordering::SeqCst) == 5);
    let mut set = BTreeSet::new();
    set.insert(0);
    assert!(*storage.available_blocks() == set);

    storage.remove(idx3);
    assert!(value.load(Ordering::SeqCst) == 3);
    let mut set = BTreeSet::new();
    set.insert(0);
    set.insert(3);
    assert!(*storage.available_blocks() == set);

    storage.remove(idx2);
    assert!(value.load(Ordering::SeqCst) == 0);

    let mut set = BTreeSet::new();
    set.insert(0);

    assert!(*storage.available_blocks() == set);

    let idx4 = storage.create(40);
    assert!(idx4.idx() == 0);
    assert!(idx4.blocks() == 4);
    assert!(*storage.available_blocks() == BTreeSet::new());
}

#[test]
fn remove_end_test() {
    let mut storage = BlockStorage::<DropTest>::new(10);
    let value = Arc::new(AtomicI32::new(0));
    let (_idx1, _idx2, idx3) = three_runs(&mut storage, &value);

    assert!(value.load(Ordering::SeqCst) == 7);

    storage.remove(idx3);
    assert!(value.load(Ordering::SeqCst) == 5);
    let mut set = BTreeSet::new();
    set.insert(3);
    assert!(*storage.available_blocks() == set);

    // The free run at the tail grows to fit a larger run.
    let idx4 = storage.create(20);
    assert!(idx4.idx() == 3);
    assert!(idx4.blocks() == 2);

    assert!(*storage.available_blocks() == BTreeSet::new());
}

#[test]
fn runs_are_laid_out_in_order() {
    let mut storage = BlockStorage::<u32>::new(10);
    let a = storage.create(3);
    let b = storage.create(15);
    assert_eq!((a.idx(), a.blocks()), (0, 1));
    assert_eq!((b.idx(), b.blocks()), (1, 2));
    assert_eq!(storage.block_tag(0), Some(BlockIdx::OwnedStart(0)));
    assert_eq!(storage.block_tag(1), Some(BlockIdx::OwnedStart(0)));
    assert_eq!(storage.block_tag(2), Some(BlockIdx::Owned(1)));
    assert_eq!(storage.block_tag(3), None);
}

#[test]
fn freed_middle_run_is_reused_exactly() {
    let mut storage = BlockStorage::<u32>::new(10);
    let _a = storage.create(10);
    let b = storage.create(20);
    let _c = storage.create(10);
    storage.remove(b);
    assert_eq!(*storage.available_blocks(), set_of(&[1]));
    assert_eq!(storage.block_tag(1), Some(BlockIdx::EmptyStart(2)));
    assert_eq!(storage.block_tag(2), Some(BlockIdx::Empty(1)));
    let d = storage.create(20);
    assert_eq!((d.idx(), d.blocks()), (1, 2));
    assert!(storage.available_blocks().is_empty());
}

#[test]
fn separated_free_runs_stay_apart() {
    let mut storage = BlockStorage::<u32>::new(10);
    let a = storage.create(10);
    let b = storage.create(20);
    let c = storage.create(10);
    storage.remove(a);
    storage.remove(c);
    assert_eq!(*storage.available_blocks(), set_of(&[0, 3]));
    storage.remove(b);
    assert_eq!(*storage.available_blocks(), set_of(&[0]));
    assert_eq!(storage.block_tag(0), Some(BlockIdx::EmptyStart(4)));
    let d = storage.create(40);
    assert_eq!((d.idx(), d.blocks()), (0, 4));
}

#[test]
fn best_fit_takes_smallest_surplus() {
    let mut storage = BlockStorage::<u32>::new(1);
    let runs: Vec<_> = [3, 1, 2, 1, 2, 1].iter().map(|s| storage.create(*s)).collect();
    // Free the runs of 3 and both runs of 2, keeping the separators of 1.
    let mut keys = runs.into_iter();
    let r3 = keys.next().unwrap();
    let _s1 = keys.next().unwrap();
    let r2a = keys.next().unwrap();
    let _s2 = keys.next().unwrap();
    let r2b = keys.next().unwrap();
    let _s3 = keys.next().unwrap();
    storage.remove(r3);
    storage.remove(r2a);
    storage.remove(r2b);
    assert_eq!(*storage.available_blocks(), set_of(&[0, 4, 7]));
    // Both runs of 2 leave a surplus of 1; the earlier one wins.
    let k = storage.create(1);
    assert_eq!((k.idx(), k.blocks()), (4, 1));
    // Now the leftover single block at 5 is an exact fit.
    let k = storage.create(1);
    assert_eq!(k.idx(), 5);
    // A run of 2 fits only the run at 7.
    let k = storage.create(2);
    assert_eq!(k.idx(), 7);
    // A run of 3 fits the run at 0 exactly.
    let k = storage.create(3);
    assert_eq!(k.idx(), 0);
    assert!(storage.available_blocks().is_empty());
}

#[test]
fn push_at_capacity_hands_value_back() {
    let mut storage = BlockStorage::<String>::new(2);
    let key = storage.create(2);
    let mut block = storage.get(key).unwrap();
    assert_eq!(block.capacity(), 2);
    assert_eq!(block.push("a".to_string()), None);
    assert_eq!(block.push("b".to_string()), None);
    assert_eq!(block.push("c".to_string()), Some("c".to_string()));
    assert_eq!(block.len(), 2);
    assert_eq!(block.get(0), Some(&"a".to_string()));
    assert_eq!(block.get(1), Some(&"b".to_string()));
    assert_eq!(block.get(2), None);
}

#[test]
fn pop_returns_last_value() {
    let mut storage = BlockStorage::<u32>::new(4);
    let key = storage.create(3);
    let mut block = storage.get(key).unwrap();
    assert_eq!(block.pop(), None);
    block.push(7);
    block.push(8);
    assert_eq!(block.pop(), Some(8));
    assert_eq!(block.len(), 1);
    let key = block.return_key();
    assert_eq!(storage.get_len(&key), Some(1));
    let mut block = storage.get(key).unwrap();
    assert_eq!(block.pop(), Some(7));
    assert_eq!(block.pop(), None);
}

#[test]
fn values_survive_reacquiring_the_key() {
    let mut storage = BlockStorage::<u32>::new(4);
    let a = storage.create(4);
    let b = storage.create(4);
    let mut block = storage.get(a).unwrap();
    block.push(1);
    block.push(2);
    let a = block.return_key();
    let mut block = storage.get(b).unwrap();
    block.push(9);
    let b = block.return_key();
    let block = storage.get(a).unwrap();
    assert_eq!((block.get(0), block.get(1), block.len()), (Some(&1), Some(&2), 2));
    let block = storage.get(b).unwrap();
    assert_eq!((block.get(0), block.len()), (Some(&9), 1));
}

#[test]
fn clear_drops_every_value_once() {
    let mut storage = BlockStorage::<DropTest>::new(10);
    let value = Arc::new(AtomicI32::new(0));
    let key = storage.create(10);
    let mut block = storage.get(key).unwrap();
    for _ in 0..4 {
        assert!(block.push(DropTest::new(value.clone())).is_none());
    }
    assert_eq!(value.load(Ordering::SeqCst), 4);
    storage.clear();
    assert_eq!(value.load(Ordering::SeqCst), 0);
    assert!(storage.available_blocks().is_empty());
    assert_eq!(storage.block_tag(0), None);
}

#[test]
fn stale_key_after_clear_is_refused() {
    let mut storage = BlockStorage::<u32>::new(10);
    let a = storage.create(5);
    let b = storage.create(5);
    assert_eq!(a.generation(), 0);
    storage.clear();
    assert_eq!(storage.get_len(&a), None);
    assert!(storage.get(a).is_none());
    storage.remove(b);
    assert_eq!(storage.block_tag(0), None);
    let c = storage.create(5);
    assert_eq!((c.idx(), c.generation()), (0, 1));
}

#[test]
fn pop_drops_nothing_else() {
    let mut storage = BlockStorage::<DropTest>::new(3);
    let value = Arc::new(AtomicI32::new(0));
    let key = storage.create(3);
    let mut block = storage.get(key).unwrap();
    block.push(DropTest::new(value.clone()));
    block.push(DropTest::new(value.clone()));
    let popped = block.pop();
    assert_eq!(value.load(Ordering::SeqCst), 2);
    drop(popped);
    assert_eq!(value.load(Ordering::SeqCst), 1);
    let key = block.return_key();
    storage.remove(key);
    assert_eq!(value.load(Ordering::SeqCst), 0);
}

#[test]
fn block_tag_queries() {
    let tag = BlockIdx::EmptyStart(3);
    assert!(tag.is_empty_start());
    assert!(!tag.is_owned_start());
    assert_eq!(tag.get_empty_count(), 3);
    let mut tag = BlockIdx::OwnedStart(2);
    assert!(tag.is_owned_start());
    assert_eq!(tag.get_allocated_count(), 2);
    *tag.get_allocated_count_mut() = 5;
    assert_eq!(tag, BlockIdx::OwnedStart(5));
}

#[test]
fn block_slice_and_mutation() {
    let mut storage = BlockStorage::<u32>::new(4);
    let key = storage.create(4);
    let mut block = storage.get(key).unwrap();
    block.push(1);
    block.push(2);
    *block.get_mut(1).unwrap() = 20;
    assert_eq!(block.get_mut(2), None);
    assert_eq!(block.as_slice(), vec![&1, &20]);
}
