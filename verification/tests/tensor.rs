use equistore::{DenseArray, Error, Labels, TensorBlock, TensorMap};
use std::sync::Arc;

fn labels(names: &[&str], entries: &[&[i32]]) -> Arc<Labels> {
    let names = names.iter().map(|s| s.to_string()).collect();
    let entries = entries.iter().map(|e| e.to_vec()).collect();
    Arc::new(Labels::build(names, entries).unwrap())
}

fn range(name: &str, count: i32) -> Arc<Labels> {
    let entries: Vec<Vec<i32>> = (0..count).map(|i| vec![i]).collect();
    Arc::new(Labels::build(vec![name.to_string()], entries).unwrap())
}

fn block(samples: i32, properties: Arc<Labels>) -> TensorBlock<DenseArray<f64>> {
    let count = samples as usize * properties.count();
    let values = (0..count).map(|i| i as f64).collect();
    let data = DenseArray::new(vec![samples as usize, properties.count()], values).unwrap();
    TensorBlock::new(data, range("s", samples), vec![], properties).unwrap()
}

fn strings(list: &[&str]) -> Vec<String> {
    list.iter().map(|s| s.to_string()).collect()
}

fn three_blocks() -> TensorMap<DenseArray<f64>> {
    let keys = labels(&["a", "b"], &[&[0, 0], &[1, 0], &[0, 1]]);
    let blocks = vec![block(1, range("p", 2)), block(2, range("p", 2)), block(3, range("p", 2))];
    TensorMap::new(keys, blocks).unwrap()
}

#[test]
fn map_with_one_block_for_each_key() {
    let map = three_blocks();
    assert_eq!(map.len(), 3);
    assert_eq!(map.keys().count(), 3);
    assert!(map.shared_dimensions().is_empty());
    assert_eq!(map.block_by_id(0).unwrap().shape(), &[1, 2]);
    assert_eq!(map.block_by_id(2).unwrap().shape(), &[3, 2]);
    assert_eq!(
        map.block_by_id(3).err(),
        Some(Error::IndexOutOfRange { index: 3, len: 3 })
    );
}

#[test]
fn map_with_another_number_of_blocks_than_keys() {
    let keys = labels(&["a"], &[&[0], &[1]]);
    let r = TensorMap::new(keys, vec![block(1, range("p", 2))]);
    assert_eq!(r.err(), Some(Error::KeyCountMismatch { keys: 2, blocks: 1 }));

    let keys = labels(&["a"], &[]);
    let r = TensorMap::new(keys, vec![block(1, range("p", 2))]);
    assert_eq!(r.err(), Some(Error::KeyCountMismatch { keys: 0, blocks: 1 }));
}

#[test]
fn map_without_blocks() {
    let keys = labels(&["a"], &[]);
    let map = TensorMap::new(keys, Vec::<TensorBlock<DenseArray<f64>>>::new()).unwrap();
    assert_eq!(map.len(), 0);
    assert!(map.blocks_matching(&vec![]).is_empty());
    assert!(map.iter().next().is_none());
}

#[test]
fn blocks_tied_by_their_keys_need_the_same_properties() {
    let keys = labels(&["kind", "symmetry"], &[&[0, 0], &[0, 1]]);
    let blocks = vec![block(1, range("p", 2)), block(1, range("p", 3))];
    let r = TensorMap::with_shared_dimensions(keys, blocks, strings(&["kind"]));
    assert_eq!(r.err(), Some(Error::PropertiesInconsistent { first: 0, second: 1 }));
}

#[test]
fn blocks_that_are_not_tied_may_differ_in_their_properties() {
    let keys = labels(&["kind", "symmetry"], &[&[0, 0], &[1, 0]]);
    let blocks = vec![block(1, range("p", 2)), block(1, range("p", 3))];
    let map = TensorMap::with_shared_dimensions(keys, blocks, strings(&["kind"])).unwrap();
    assert_eq!(map.shared_dimensions(), &strings(&["kind"]));
    assert_eq!(map.len(), 2);
}

#[test]
fn without_tying_dimensions_all_blocks_are_tied() {
    let keys = labels(&["kind"], &[&[0], &[1], &[2]]);
    let blocks =
        vec![block(1, range("p", 2)), block(1, range("p", 2)), block(1, range("q", 2))];
    let r = TensorMap::new(keys, blocks);
    assert_eq!(r.err(), Some(Error::PropertiesInconsistent { first: 0, second: 2 }));
}

#[test]
fn all_key_dimensions_tie_no_two_blocks() {
    let keys = labels(&["a", "b"], &[&[0, 0], &[0, 1], &[1, 1]]);
    let blocks =
        vec![block(1, range("p", 1)), block(1, range("p", 2)), block(1, range("p", 3))];
    let map = TensorMap::with_shared_dimensions(keys, blocks, strings(&["a", "b"])).unwrap();
    assert_eq!(map.len(), 3);
}

#[test]
fn a_name_that_is_no_key_dimension_is_ignored() {
    let keys = labels(&["a", "b"], &[&[0, 0], &[1, 0]]);
    let blocks = vec![block(1, range("p", 2)), block(1, range("p", 3))];
    let r = TensorMap::with_shared_dimensions(keys, blocks, strings(&["c"]));
    assert_eq!(r.err(), Some(Error::PropertiesInconsistent { first: 0, second: 1 }));

    let keys = labels(&["a", "b"], &[&[0, 0], &[1, 0]]);
    let blocks = vec![block(1, range("p", 2)), block(1, range("p", 3))];
    let map = TensorMap::with_shared_dimensions(keys, blocks, strings(&["c", "a"]));
    assert!(map.is_ok());
}

#[test]
fn the_first_inconsistent_pair_is_reported() {
    let keys = labels(&["a", "b"], &[&[0, 0], &[1, 0], &[0, 1], &[1, 1], &[0, 2]]);
    let blocks = vec![
        block(1, range("p", 2)),
        block(1, range("p", 3)),
        block(1, range("p", 2)),
        block(1, range("p", 4)),
        block(1, range("p", 5)),
    ];
    let r = TensorMap::with_shared_dimensions(keys, blocks, strings(&["a"]));
    assert_eq!(r.err(), Some(Error::PropertiesInconsistent { first: 1, second: 3 }));
}

#[test]
fn the_number_of_blocks_is_compared_first() {
    let keys = labels(&["a"], &[&[0], &[1], &[2]]);
    let blocks = vec![block(1, range("p", 2)), block(1, range("p", 3))];
    let r = TensorMap::new(keys, blocks);
    assert_eq!(r.err(), Some(Error::KeyCountMismatch { keys: 3, blocks: 2 }));
}

#[test]
fn matching_blocks_come_in_the_order_of_the_keys() {
    let map = three_blocks();
    let selection = vec![("b".to_string(), 0)];
    assert_eq!(map.blocks_matching(&selection), vec![0, 1]);
    let selection = vec![("a".to_string(), 0)];
    assert_eq!(map.blocks_matching(&selection), vec![0, 2]);
    let selection = vec![("b".to_string(), 1)];
    assert_eq!(map.blocks_matching(&selection), vec![2]);
}

#[test]
fn matching_with_several_constraints() {
    let map = three_blocks();
    let selection = vec![("a".to_string(), 0), ("b".to_string(), 1)];
    assert_eq!(map.blocks_matching(&selection), vec![2]);
    let selection = vec![("b".to_string(), 0), ("a".to_string(), 1)];
    assert_eq!(map.blocks_matching(&selection), vec![1]);
    let selection = vec![("a".to_string(), 1), ("b".to_string(), 1)];
    assert!(map.blocks_matching(&selection).is_empty());
    let selection = vec![("a".to_string(), 0), ("a".to_string(), 1)];
    assert!(map.blocks_matching(&selection).is_empty());
}

#[test]
fn matching_without_constraints_gives_every_block() {
    let map = three_blocks();
    assert_eq!(map.blocks_matching(&vec![]), vec![0, 1, 2]);
}

#[test]
fn matching_on_a_name_that_is_no_key_dimension_gives_nothing() {
    let map = three_blocks();
    let selection = vec![("c".to_string(), 0)];
    assert!(map.blocks_matching(&selection).is_empty());
    let selection = vec![("a".to_string(), 0), ("c".to_string(), 0)];
    assert!(map.blocks_matching(&selection).is_empty());
}

#[test]
fn cursor_walks_keys_and_blocks_in_order_and_starts_again() {
    let map = three_blocks();
    for _ in 0..2 {
        let mut iter = map.iter();
        let mut keys = Vec::new();
        let mut rows = Vec::new();
        while let Some((key, block)) = iter.next() {
            keys.push(key.to_vec());
            rows.push(block.shape()[0]);
        }
        assert_eq!(keys, vec![vec![0, 0], vec![1, 0], vec![0, 1]]);
        assert_eq!(rows, vec![1, 2, 3]);
        assert!(iter.next().is_none());
    }
}

#[test]
fn views_on_the_blocks_of_a_map() {
    let mut map = three_blocks();
    let shared = map.block_data(1).unwrap();
    assert_eq!(map.block_data_mut(1).err(), Some(Error::BorrowConflict));
    let other = map.block_data_mut(0).unwrap();
    assert_eq!(map.block_write(0, &other, 1, 8.0), Ok(()));
    assert_eq!(map.block_by_id(1).unwrap().read(&shared, 3), Ok(3.0));
    assert_eq!(map.block_by_id(0).unwrap().read_mut(&other, 1), Ok(8.0));
    assert_eq!(map.block_release(1, shared), Ok(()));
    let exclusive = map.block_data_mut(1).unwrap();
    assert_eq!(map.block_write(1, &exclusive, 3, -1.0), Ok(()));
    assert_eq!(
        map.block_write(1, &exclusive, 4, -1.0),
        Err(Error::IndexOutOfRange { index: 4, len: 4 })
    );
    assert_eq!(map.block_write(2, &exclusive, 0, -1.0), Err(Error::BorrowConflict));
    assert_eq!(map.block_release_mut(1, exclusive), Ok(()));
    assert_eq!(map.block_release_mut(0, other), Ok(()));
    let shared = map.block_data(1).unwrap();
    assert_eq!(map.block_by_id(1).unwrap().read(&shared, 3), Ok(-1.0));
    assert_eq!(map.len(), 3);
}

#[test]
fn views_on_a_block_that_the_map_does_not_have() {
    let mut map = three_blocks();
    assert_eq!(map.block_data(3).err(), Some(Error::IndexOutOfRange { index: 3, len: 3 }));
    assert_eq!(
        map.block_data_mut(7).err(),
        Some(Error::IndexOutOfRange { index: 7, len: 3 })
    );
    let shared = map.block_data(0).unwrap();
    assert_eq!(
        map.block_release(3, shared),
        Err(Error::IndexOutOfRange { index: 3, len: 3 })
    );
    let exclusive = map.block_data_mut(1).unwrap();
    assert_eq!(
        map.block_write(5, &exclusive, 0, 0.0),
        Err(Error::IndexOutOfRange { index: 5, len: 3 })
    );
    assert_eq!(
        map.block_release_mut(4, exclusive),
        Err(Error::IndexOutOfRange { index: 4, len: 3 })
    );
}

#[test]
fn building_again_from_what_the_map_hands_out_gives_an_equal_map() {
    let keys = labels(&["kind", "symmetry"], &[&[0, 0], &[0, 1], &[1, 0]]);
    let mut first = block(2, range("p", 2));
    let gradient_samples = labels(&["sample", "atom"], &[&[0, 3], &[1, 3], &[1, 4]]);
    let gradient = TensorBlock::new(
        DenseArray::new(vec![3, 2], vec![0.5; 6]).unwrap(),
        gradient_samples,
        vec![],
        range("p", 2),
    )
    .unwrap();
    first.add_gradient("positions", gradient).unwrap();
    let blocks = vec![first, block(3, range("p", 2)), block(1, range("q", 4))];
    let mut map =
        TensorMap::with_shared_dimensions(keys, blocks, strings(&["kind"])).unwrap();

    let copy_labels = |labels: &Labels| {
        let mut entries = Vec::new();
        let mut iter = labels.iter();
        while let Some(entry) = iter.next() {
            entries.push(entry.to_vec());
        }
        Arc::new(Labels::build(labels.names().clone(), entries).unwrap())
    };

    let mut contents = Vec::new();
    for position in 0..map.len() {
        let view = map.block_data(position).unwrap();
        let block = map.block_by_id(position).unwrap();
        let values: Vec<f64> = (0..block.len()).map(|i| block.read(&view, i).unwrap()).collect();
        contents.push(values);
        map.block_release(position, view).unwrap();
    }

    let mut blocks = Vec::new();
    for position in 0..map.len() {
        let block = map.block_by_id(position).unwrap();
        let data = DenseArray::new(block.shape().to_vec(), contents[position].clone()).unwrap();
        let mut copy = TensorBlock::new(
            data,
            copy_labels(block.samples()),
            block.components().iter().map(|c| copy_labels(c)).collect(),
            copy_labels(block.properties()),
        )
        .unwrap();
        for at in 0..block.gradient_count() {
            let (parameter, gradient) = block.gradient_at(at).unwrap();
            let data =
                DenseArray::new(gradient.shape().to_vec(), vec![0.5; gradient.len()]).unwrap();
            let gradient = TensorBlock::new(
                data,
                copy_labels(gradient.samples()),
                gradient.components().iter().map(|c| copy_labels(c)).collect(),
                copy_labels(gradient.properties()),
            )
            .unwrap();
            copy.add_gradient(parameter, gradient).unwrap();
        }
        blocks.push(copy);
    }
    let mut again = TensorMap::with_shared_dimensions(
        copy_labels(map.keys()),
        blocks,
        map.shared_dimensions().clone(),
    )
    .unwrap();

    assert_eq!(again.keys(), map.keys());
    assert_eq!(again.len(), map.len());
    assert_eq!(again.shared_dimensions(), map.shared_dimensions());
    for position in 0..map.len() {
        let va = again.block_data(position).unwrap();
        let vb = map.block_data(position).unwrap();
        let a = again.block_by_id(position).unwrap();
        let b = map.block_by_id(position).unwrap();
        assert_eq!(a.shape(), b.shape());
        assert_eq!(a.samples(), b.samples());
        assert_eq!(a.components(), b.components());
        assert_eq!(a.properties(), b.properties());
        assert_eq!(a.gradient_count(), b.gradient_count());
        for i in 0..b.len() {
            assert_eq!(a.read(&va, i), b.read(&vb, i));
        }
        for at in 0..b.gradient_count() {
            let (pa, ga) = a.gradient_at(at).unwrap();
            let (pb, gb) = b.gradient_at(at).unwrap();
            assert_eq!(pa, pb);
            assert_eq!(ga.samples(), gb.samples());
            assert_eq!(ga.shape(), gb.shape());
        }
    }
}

#[test]
fn taking_a_map_apart_and_building_it_again() {
    let keys = labels(&["kind", "symmetry"], &[&[0, 0], &[0, 1], &[1, 0]]);
    let blocks = vec![block(2, range("p", 2)), block(3, range("p", 2)), block(1, range("q", 4))];
    let mut map = TensorMap::with_shared_dimensions(keys, blocks, strings(&["kind"])).unwrap();
    let exclusive = map.block_data_mut(1).unwrap();
    map.block_write(1, &exclusive, 2, 0.125).unwrap();
    map.block_release_mut(1, exclusive).unwrap();

    let expected_keys = labels(&["kind", "symmetry"], &[&[0, 0], &[0, 1], &[1, 0]]);
    let (keys, blocks, shared) = map.into_parts();
    assert_eq!(keys, expected_keys);
    assert_eq!(blocks.len(), 3);
    assert_eq!(shared, strings(&["kind"]));
    let again = TensorMap::with_shared_dimensions(keys, blocks, shared).unwrap();
    assert_eq!(again.keys(), &expected_keys);
    assert_eq!(again.len(), 3);
    assert_eq!(again.shared_dimensions(), &strings(&["kind"]));
    assert_eq!(again.block_by_id(0).unwrap().shape(), &[2, 2]);
    assert_eq!(again.block_by_id(1).unwrap().peek(2), Ok(0.125));
    assert_eq!(again.block_by_id(1).unwrap().peek(3), Ok(3.0));
    assert_eq!(again.block_by_id(2).unwrap().properties().count(), 4);
    let selection = vec![("kind".to_string(), 0)];
    assert_eq!(again.blocks_matching(&selection), vec![0, 1]);
}

#[test]
fn blocks_are_stored_as_they_are_given() {
    let keys = labels(&["a"], &[&[0], &[1]]);
    let fresh = block(1, range("p", 2));
    let mut held = block(2, range("p", 2));
    let exclusive = held.data_mut().unwrap();
    let mut map = TensorMap::new(keys, vec![fresh, held]).unwrap();

    assert_eq!(map.block_by_id(0).unwrap().peek(1), Ok(1.0));
    assert_eq!(map.block_by_id(1).unwrap().peek(1), Err(Error::BorrowConflict));
    let mut iter = map.iter();
    assert_eq!(iter.next().unwrap().1.peek(0), Ok(0.0));
    assert_eq!(iter.next().unwrap().1.peek(0), Err(Error::BorrowConflict));

    let first = map.block_data_mut(0).unwrap();
    assert_eq!(map.block_write(0, &first, 0, 4.0), Ok(()));
    assert_eq!(map.block_data(1).err(), Some(Error::BorrowConflict));
    assert_eq!(map.block_write(1, &exclusive, 3, 9.0), Ok(()));
    assert_eq!(map.block_release_mut(1, exclusive), Ok(()));
    assert_eq!(map.block_by_id(1).unwrap().peek(3), Ok(9.0));

    let (_, blocks, _) = map.into_parts();
    let mut blocks = blocks.into_iter();
    let mut a = blocks.next().unwrap();
    let mut b = blocks.next().unwrap();
    assert_eq!(a.data().err(), Some(Error::BorrowConflict));
    assert_eq!(a.read_mut(&first, 0), Ok(4.0));
    assert!(b.data_mut().is_ok());
}
