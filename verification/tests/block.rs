use equistore::{DenseArray, EmptyArray, Error, Labels, TensorBlock};
use std::sync::Arc;

fn axis(names: &[&str], entries: &[&[i32]]) -> Arc<Labels> {
    let names = names.iter().map(|s| s.to_string()).collect();
    let entries = entries.iter().map(|e| e.to_vec()).collect();
    Arc::new(Labels::build(names, entries).unwrap())
}

fn counted(name: &str, count: i32) -> Arc<Labels> {
    let entries: Vec<Vec<i32>> = (0..count).map(|i| vec![i]).collect();
    Arc::new(Labels::build(vec![name.to_string()], entries).unwrap())
}

fn dense(shape: &[usize]) -> DenseArray<f64> {
    let count: usize = shape.iter().product();
    let values = (0..count).map(|i| i as f64).collect();
    DenseArray::new(shape.to_vec(), values).unwrap()
}

fn plain_block() -> TensorBlock<DenseArray<f64>> {
    TensorBlock::new(dense(&[3, 2]), counted("s", 3), vec![], counted("p", 2)).unwrap()
}

#[test]
fn block_from_matching_array_and_labels() {
    let block = TensorBlock::new(
        dense(&[3, 2, 4]),
        counted("s", 3),
        vec![counted("c", 2)],
        counted("p", 4),
    )
    .unwrap();
    assert_eq!(block.shape(), &[3, 2, 4]);
    assert_eq!(block.len(), 24);
    assert_eq!(block.samples().count(), 3);
    assert_eq!(block.components().len(), 1);
    assert_eq!(block.components()[0].count(), 2);
    assert_eq!(block.properties().count(), 4);
    assert_eq!(block.gradient_count(), 0);
}

#[test]
fn block_with_other_samples_than_the_array_has_rows() {
    let r = TensorBlock::new(dense(&[4, 2]), counted("s", 3), vec![], counted("p", 2));
    assert_eq!(r.err(), Some(Error::ShapeMismatch { axis: 0, expected: 3, actual: 4 }));
}

#[test]
fn block_reports_the_first_axis_that_differs() {
    let r = TensorBlock::new(
        dense(&[3, 5, 7]),
        counted("s", 3),
        vec![counted("c", 2)],
        counted("p", 4),
    );
    assert_eq!(r.err(), Some(Error::ShapeMismatch { axis: 1, expected: 2, actual: 5 }));

    let r = TensorBlock::new(
        dense(&[3, 2, 7]),
        counted("s", 3),
        vec![counted("c", 2)],
        counted("p", 4),
    );
    assert_eq!(r.err(), Some(Error::ShapeMismatch { axis: 2, expected: 4, actual: 7 }));

    let r = TensorBlock::new(
        dense(&[4, 5, 7]),
        counted("s", 3),
        vec![counted("c", 2)],
        counted("p", 4),
    );
    assert_eq!(r.err(), Some(Error::ShapeMismatch { axis: 0, expected: 3, actual: 4 }));
}

#[test]
fn block_reports_a_shared_axis_before_the_number_of_axes() {
    let r = TensorBlock::new(dense(&[4]), counted("s", 3), vec![], counted("p", 2));
    assert_eq!(r.err(), Some(Error::ShapeMismatch { axis: 0, expected: 3, actual: 4 }));
}

#[test]
fn block_with_another_number_of_axes() {
    let r = TensorBlock::new(dense(&[3]), counted("s", 3), vec![], counted("p", 2));
    assert_eq!(r.err(), Some(Error::AxisCountMismatch { components: 0, actual: 1 }));

    let r = TensorBlock::new(dense(&[3, 2, 2]), counted("s", 3), vec![], counted("p", 2));
    assert_eq!(r.err(), Some(Error::AxisCountMismatch { components: 0, actual: 3 }));

    let r = TensorBlock::new(
        dense(&[3, 2]),
        counted("s", 3),
        vec![counted("c", 2)],
        counted("p", 4),
    );
    assert_eq!(r.err(), Some(Error::AxisCountMismatch { components: 1, actual: 2 }));

    let r = TensorBlock::new(dense(&[]), counted("s", 3), vec![], counted("p", 2));
    assert_eq!(r.err(), Some(Error::AxisCountMismatch { components: 0, actual: 0 }));
}

#[test]
fn block_over_an_array_without_elements() {
    let block = TensorBlock::new(
        EmptyArray::new(vec![0, 2]),
        counted("s", 0),
        vec![],
        counted("p", 2),
    )
    .unwrap();
    assert_eq!(block.shape(), &[0, 2]);
    assert_eq!(block.len(), 0);
}

#[test]
fn gradient_is_added_and_found() {
    let mut block = plain_block();
    let samples = axis(&["sample", "atom"], &[&[0, 1], &[2, 1], &[2, 3], &[1, 0]]);
    let gradient = TensorBlock::new(dense(&[4, 2]), samples, vec![], counted("p", 2)).unwrap();
    assert_eq!(block.add_gradient("positions", gradient), Ok(()));
    assert_eq!(block.gradient_count(), 1);
    let found = block.gradient("positions").unwrap();
    assert_eq!(found.shape(), &[4, 2]);
    assert_eq!(found.samples().names(), &vec!["sample".to_string(), "atom".to_string()]);
    assert!(block.gradient("cell").is_none());
    let (parameter, at) = block.gradient_at(0).unwrap();
    assert_eq!(parameter, "positions");
    assert_eq!(at.len(), 8);
    assert_eq!(
        block.gradient_at(1).err(),
        Some(Error::IndexOutOfRange { index: 1, len: 1 })
    );
}

#[test]
fn gradients_keep_the_order_in_which_they_were_added() {
    let mut block = plain_block();
    for (count, parameter) in [(1, "cell"), (2, "positions"), (3, "strain")] {
        let gradient =
            TensorBlock::new(dense(&[count, 2]), counted("sample", count as i32), vec![], counted("p", 2))
                .unwrap();
        assert_eq!(block.add_gradient(parameter, gradient), Ok(()));
    }
    assert_eq!(block.gradient_count(), 3);
    assert_eq!(block.gradient_at(0).unwrap().0, "cell");
    assert_eq!(block.gradient_at(1).unwrap().0, "positions");
    assert_eq!(block.gradient_at(2).unwrap().0, "strain");
    assert_eq!(block.gradient("positions").unwrap().len(), 4);
    assert_eq!(block.gradient("strain").unwrap().len(), 6);
}

#[test]
fn gradient_with_other_properties_is_refused() {
    let parent_properties = axis(&["n", "l"], &[&[0, 1], &[1, 1]]);
    let gradient_properties = axis(&["l", "n"], &[&[0, 1], &[1, 1]]);
    let mut block =
        TensorBlock::new(dense(&[3, 2]), counted("s", 3), vec![], parent_properties).unwrap();
    let gradient =
        TensorBlock::new(dense(&[1, 2]), counted("sample", 1), vec![], gradient_properties)
            .unwrap();
    assert_eq!(block.add_gradient("positions", gradient), Err(Error::PropertiesMismatch));
    assert_eq!(block.gradient_count(), 0);
    assert!(block.gradient("positions").is_none());
}

#[test]
fn gradient_with_other_property_values_is_refused() {
    let mut block = plain_block();
    let gradient = TensorBlock::new(
        dense(&[1, 2]),
        counted("sample", 1),
        vec![],
        axis(&["p"], &[&[0], &[2]]),
    )
    .unwrap();
    assert_eq!(block.add_gradient("positions", gradient), Err(Error::PropertiesMismatch));
}

#[test]
fn gradient_with_other_components_is_refused() {
    let mut block = TensorBlock::new(
        dense(&[3, 2, 2]),
        counted("s", 3),
        vec![counted("c", 2)],
        counted("p", 2),
    )
    .unwrap();
    let gradient = TensorBlock::new(
        dense(&[1, 2, 2]),
        counted("sample", 1),
        vec![counted("d", 2)],
        counted("p", 2),
    )
    .unwrap();
    assert_eq!(block.add_gradient("positions", gradient), Err(Error::ComponentsMismatch));

    let gradient =
        TensorBlock::new(dense(&[1, 2]), counted("sample", 1), vec![], counted("p", 2)).unwrap();
    assert_eq!(block.add_gradient("positions", gradient), Err(Error::ComponentsMismatch));
    assert_eq!(block.gradient_count(), 0);
}

#[test]
fn gradient_whose_samples_do_not_refer_to_the_parent_is_refused() {
    let mut block = plain_block();

    let gradient =
        TensorBlock::new(dense(&[1, 2]), counted("atom", 1), vec![], counted("p", 2)).unwrap();
    assert_eq!(block.add_gradient("positions", gradient), Err(Error::SamplesMismatch));

    let out_of_range = axis(&["sample"], &[&[0], &[3]]);
    let gradient =
        TensorBlock::new(dense(&[2, 2]), out_of_range, vec![], counted("p", 2)).unwrap();
    assert_eq!(block.add_gradient("positions", gradient), Err(Error::SamplesMismatch));

    let negative = axis(&["sample"], &[&[-1]]);
    let gradient = TensorBlock::new(dense(&[1, 2]), negative, vec![], counted("p", 2)).unwrap();
    assert_eq!(block.add_gradient("positions", gradient), Err(Error::SamplesMismatch));

    let without_dimension = Arc::new(Labels::build(vec![], vec![vec![]]).unwrap());
    let gradient =
        TensorBlock::new(dense(&[1, 2]), without_dimension, vec![], counted("p", 2)).unwrap();
    assert_eq!(block.add_gradient("positions", gradient), Err(Error::SamplesMismatch));

    let last = axis(&["sample"], &[&[2]]);
    let gradient = TensorBlock::new(dense(&[1, 2]), last, vec![], counted("p", 2)).unwrap();
    assert_eq!(block.add_gradient("positions", gradient), Ok(()));
}

#[test]
fn gradient_for_a_parameter_that_is_taken_is_refused() {
    let mut block = plain_block();
    let gradient =
        TensorBlock::new(dense(&[1, 2]), counted("sample", 1), vec![], counted("p", 2)).unwrap();
    assert_eq!(block.add_gradient("positions", gradient), Ok(()));
    let gradient =
        TensorBlock::new(dense(&[2, 2]), counted("sample", 2), vec![], counted("p", 2)).unwrap();
    assert_eq!(block.add_gradient("positions", gradient), Err(Error::DuplicateParameter));
    assert_eq!(block.gradient_count(), 1);
    assert_eq!(block.gradient("positions").unwrap().len(), 2);
}

#[test]
fn properties_are_compared_before_anything_else_of_a_gradient() {
    let mut block = plain_block();
    let gradient =
        TensorBlock::new(dense(&[1, 2]), counted("sample", 1), vec![], counted("p", 2)).unwrap();
    assert_eq!(block.add_gradient("positions", gradient), Ok(()));
    let gradient = TensorBlock::new(
        dense(&[1, 2, 3]),
        counted("atom", 1),
        vec![counted("c", 2)],
        counted("p", 3),
    )
    .unwrap();
    assert_eq!(block.add_gradient("positions", gradient), Err(Error::PropertiesMismatch));
}

#[test]
fn gradient_of_a_gradient() {
    let mut block = plain_block();
    let mut first = TensorBlock::new(
        dense(&[2, 2]),
        axis(&["sample", "atom"], &[&[0, 0], &[2, 0]]),
        vec![],
        counted("p", 2),
    )
    .unwrap();
    let second = TensorBlock::new(
        dense(&[3, 2]),
        axis(&["sample", "atom"], &[&[0, 0], &[1, 0], &[1, 1]]),
        vec![],
        counted("p", 2),
    )
    .unwrap();
    assert_eq!(first.add_gradient("positions", second), Ok(()));
    assert_eq!(block.add_gradient("positions", first), Ok(()));
    let inner = block.gradient("positions").unwrap().gradient("positions").unwrap();
    assert_eq!(inner.shape(), &[3, 2]);

    let mut first = TensorBlock::new(
        dense(&[2, 2]),
        axis(&["sample"], &[&[0], &[1]]),
        vec![],
        counted("p", 2),
    )
    .unwrap();
    let beyond = TensorBlock::new(
        dense(&[1, 2]),
        axis(&["sample"], &[&[2]]),
        vec![],
        counted("p", 2),
    )
    .unwrap();
    assert_eq!(first.add_gradient("cell", beyond), Err(Error::SamplesMismatch));
}

#[test]
fn exclusive_view_is_refused_while_a_shared_view_is_outstanding() {
    let mut block = plain_block();
    let shared = block.data().unwrap();
    assert_eq!(block.data_mut().err(), Some(Error::BorrowConflict));
    assert_eq!(block.release(shared), Ok(()));
    let exclusive = block.data_mut().unwrap();
    assert_eq!(block.write(&exclusive, 0, 7.5), Ok(()));
    assert_eq!(block.release_mut(exclusive), Ok(()));
}

#[test]
fn every_view_is_refused_while_the_exclusive_view_is_outstanding() {
    let mut block = plain_block();
    let exclusive = block.data_mut().unwrap();
    assert_eq!(block.data().err(), Some(Error::BorrowConflict));
    assert_eq!(block.data_mut().err(), Some(Error::BorrowConflict));
    assert_eq!(block.release_mut(exclusive), Ok(()));
    let a = block.data().unwrap();
    let b = block.data().unwrap();
    assert_eq!(block.release(a), Ok(()));
    assert_eq!(block.data_mut().err(), Some(Error::BorrowConflict));
    assert_eq!(block.release(b), Ok(()));
    assert!(block.data_mut().is_ok());
}

#[test]
fn reading_goes_through_a_view() {
    let mut block = plain_block();
    let mut other = plain_block();
    let foreign = other.data().unwrap();
    assert_eq!(block.read(&foreign, 0), Err(Error::BorrowConflict));

    let shared = block.data().unwrap();
    assert_eq!(block.read(&shared, 0), Ok(0.0));
    assert_eq!(block.read(&shared, 5), Ok(5.0));
    assert_eq!(block.read(&shared, 6), Err(Error::IndexOutOfRange { index: 6, len: 6 }));
    assert_eq!(block.release(shared), Ok(()));
    assert_eq!(block.release(foreign), Err(Error::BorrowConflict));
}

#[test]
fn writing_goes_through_the_exclusive_view() {
    let mut block = plain_block();
    let mut other = plain_block();
    let foreign = other.data_mut().unwrap();
    assert_eq!(block.write(&foreign, 0, 1.0), Err(Error::BorrowConflict));
    assert_eq!(block.read_mut(&foreign, 0), Err(Error::BorrowConflict));

    let exclusive = block.data_mut().unwrap();
    assert_eq!(block.write(&exclusive, 3, 42.0), Ok(()));
    assert_eq!(block.read_mut(&exclusive, 3), Ok(42.0));
    assert_eq!(block.read_mut(&exclusive, 2), Ok(2.0));
    assert_eq!(
        block.write(&exclusive, 6, 1.0),
        Err(Error::IndexOutOfRange { index: 6, len: 6 })
    );
    assert_eq!(
        block.read_mut(&exclusive, 9),
        Err(Error::IndexOutOfRange { index: 9, len: 6 })
    );
    assert_eq!(block.release_mut(exclusive), Ok(()));
    assert_eq!(block.release_mut(foreign), Err(Error::BorrowConflict));

    let shared = block.data().unwrap();
    assert_eq!(block.read(&shared, 3), Ok(42.0));
    assert_eq!(block.shape(), &[3, 2]);
}

#[test]
fn array_that_accepts_no_write() {
    let mut block = TensorBlock::new(
        EmptyArray::new(vec![3, 2]),
        counted("s", 3),
        vec![],
        counted("p", 2),
    )
    .unwrap();
    let exclusive = block.data_mut().unwrap();
    assert_eq!(block.write(&exclusive, 0, 1), Err(Error::ReadOnly));
    assert_eq!(
        block.read_mut(&exclusive, 0),
        Err(Error::IndexOutOfRange { index: 0, len: 0 })
    );
}

#[test]
fn building_again_from_the_parts_gives_the_same_block() {
    let mut block = plain_block();
    let gradient = TensorBlock::new(
        dense(&[2, 2]),
        axis(&["sample", "atom"], &[&[0, 4], &[2, 4]]),
        vec![],
        counted("p", 2),
    )
    .unwrap();
    block.add_gradient("positions", gradient).unwrap();

    let copy_data = |source: &mut TensorBlock<DenseArray<f64>>| {
        let view = source.data().unwrap();
        let values: Vec<f64> = (0..source.len()).map(|i| source.read(&view, i).unwrap()).collect();
        source.release(view).unwrap();
        DenseArray::new(source.shape().to_vec(), values).unwrap()
    };
    let rebuild_labels = |labels: &Labels| {
        let mut entries = Vec::new();
        let mut iter = labels.iter();
        while let Some(entry) = iter.next() {
            entries.push(entry.to_vec());
        }
        Arc::new(Labels::build(labels.names().clone(), entries).unwrap())
    };

    let data = copy_data(&mut block);
    let mut again = TensorBlock::new(
        data,
        rebuild_labels(block.samples()),
        block.components().iter().map(|c| rebuild_labels(c)).collect(),
        rebuild_labels(block.properties()),
    )
    .unwrap();
    for position in 0..block.gradient_count() {
        let (parameter, gradient) = block.gradient_at(position).unwrap();
        let values: Vec<f64> = (0..gradient.len()).map(|i| i as f64).collect();
        let copy = TensorBlock::new(
            DenseArray::new(gradient.shape().to_vec(), values).unwrap(),
            rebuild_labels(gradient.samples()),
            gradient.components().iter().map(|c| rebuild_labels(c)).collect(),
            rebuild_labels(gradient.properties()),
        )
        .unwrap();
        again.add_gradient(parameter, copy).unwrap();
    }

    assert_eq!(again.shape(), block.shape());
    assert_eq!(again.samples(), block.samples());
    assert_eq!(again.components(), block.components());
    assert_eq!(again.properties(), block.properties());
    assert_eq!(again.gradient_count(), block.gradient_count());
    let a = again.gradient("positions").unwrap();
    let b = block.gradient("positions").unwrap();
    assert_eq!(a.samples(), b.samples());
    assert_eq!(a.shape(), b.shape());
    let va = again.data().unwrap();
    let vb = block.data().unwrap();
    for i in 0..block.len() {
        assert_eq!(again.read(&va, i), block.read(&vb, i));
    }
}

#[test]
fn reading_without_a_view() {
    let mut block = plain_block();
    assert_eq!(block.peek(4), Ok(4.0));
    assert_eq!(block.peek(6), Err(Error::IndexOutOfRange { index: 6, len: 6 }));
    let shared = block.data().unwrap();
    assert_eq!(block.peek(1), Ok(1.0));
    block.release(shared).unwrap();
    let exclusive = block.data_mut().unwrap();
    assert_eq!(block.peek(1), Err(Error::BorrowConflict));
    assert_eq!(block.peek(6), Err(Error::BorrowConflict));
    block.write(&exclusive, 1, -2.0).unwrap();
    block.release_mut(exclusive).unwrap();
    assert_eq!(block.peek(1), Ok(-2.0));
}

#[test]
fn reading_the_values_of_a_gradient() {
    let mut block = plain_block();
    let gradient = TensorBlock::new(
        DenseArray::new(vec![2, 2], vec![0.25, 0.5, 0.75, 1.0]).unwrap(),
        axis(&["sample"], &[&[0], &[2]]),
        vec![],
        counted("p", 2),
    )
    .unwrap();
    block.add_gradient("positions", gradient).unwrap();
    let gradient = block.gradient("positions").unwrap();
    let values: Vec<f64> = (0..gradient.len()).map(|i| gradient.peek(i).unwrap()).collect();
    assert_eq!(values, vec![0.25, 0.5, 0.75, 1.0]);
}

#[test]
fn taking_a_block_apart_and_building_it_again() {
    let mut block = TensorBlock::new(
        dense(&[3, 2, 2]),
        counted("s", 3),
        vec![counted("c", 2)],
        counted("p", 2),
    )
    .unwrap();
    for parameter in ["cell", "positions"] {
        let gradient = TensorBlock::new(
            dense(&[2, 2, 2]),
            axis(&["sample", "atom"], &[&[0, 1], &[2, 1]]),
            vec![counted("c", 2)],
            counted("p", 2),
        )
        .unwrap();
        block.add_gradient(parameter, gradient).unwrap();
    }
    let exclusive = block.data_mut().unwrap();
    block.write(&exclusive, 5, 55.0).unwrap();

    let (data, samples, components, properties, gradients) = block.into_parts();
    assert_eq!(gradients.len(), 2);
    assert_eq!(gradients[0].0, "cell");
    assert_eq!(gradients[1].0, "positions");
    let mut again = TensorBlock::new(data, samples, components, properties).unwrap();
    for (parameter, gradient) in gradients {
        again.add_gradient(&parameter, gradient).unwrap();
    }
    assert_eq!(again.shape(), &[3, 2, 2]);
    assert_eq!(again.peek(5), Ok(55.0));
    assert_eq!(again.peek(4), Ok(4.0));
    assert_eq!(again.gradient_count(), 2);
    assert_eq!(again.gradient_at(0).unwrap().0, "cell");
    assert_eq!(again.gradient("positions").unwrap().peek(7), Ok(7.0));
    assert!(again.data_mut().is_ok());
}

#[test]
fn gradient_is_stored_as_it_is_given() {
    let mut block = plain_block();
    let fresh =
        TensorBlock::new(dense(&[1, 2]), counted("sample", 1), vec![], counted("p", 2)).unwrap();
    let mut held =
        TensorBlock::new(dense(&[2, 2]), counted("sample", 2), vec![], counted("p", 2)).unwrap();
    let exclusive = held.data_mut().unwrap();
    held.write(&exclusive, 3, 30.0).unwrap();
    block.add_gradient("cell", fresh).unwrap();
    block.add_gradient("positions", held).unwrap();

    assert_eq!(block.gradient("cell").unwrap().peek(1), Ok(1.0));
    assert_eq!(block.gradient_at(0).unwrap().1.peek(0), Ok(0.0));
    assert_eq!(block.gradient("positions").unwrap().peek(3), Err(Error::BorrowConflict));
    assert_eq!(block.gradient("positions").unwrap().read_mut(&exclusive, 3), Ok(30.0));
    assert_eq!(block.gradient_at(1).unwrap().1.peek(0), Err(Error::BorrowConflict));

    let shared = block.data().unwrap();
    assert_eq!(block.gradient("cell").unwrap().peek(1), Ok(1.0));
    assert_eq!(block.gradient("positions").unwrap().peek(3), Err(Error::BorrowConflict));
    block.release(shared).unwrap();

    let (_, _, _, _, gradients) = block.into_parts();
    let mut gradients = gradients.into_iter();
    let (_, mut first) = gradients.next().unwrap();
    let (_, mut second) = gradients.next().unwrap();
    assert!(first.data_mut().is_ok());
    assert_eq!(second.data().err(), Some(Error::BorrowConflict));
    assert_eq!(second.release_mut(exclusive), Ok(()));
    assert_eq!(second.peek(3), Ok(30.0));
}
