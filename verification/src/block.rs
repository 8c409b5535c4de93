//! Blocks: one array with labels for each of its axes, and the gradients of
//! its values.

use vstd::prelude::*;
use std::sync::Arc;
use crate::data::{Access, AccessView, Array, ArrayRef, ArrayRefMut, stepped};
use crate::errors::Error;
use crate::labels::{Labels, LabelsView, viewed};

verus! {

/// What a block is, apart from how it is stored: the extents and elements
/// of its array, the labels of its axes, and its gradients by parameter, in
/// the order in which they were added.
pub ghost struct BlockView<E> {
    pub extents: Seq<usize>,
    pub contents: Seq<E>,
    pub samples: LabelsView,
    pub components: Seq<LabelsView>,
    pub properties: LabelsView,
    pub gradients: Seq<(Seq<char>, BlockView<E>)>,
}

/// The name of the first dimension of the samples of a gradient.
pub open spec fn sample_dimension() -> Seq<char> {
    "sample"@
}

/// The views of a list of label sets.
pub open spec fn label_views(labels: Seq<Arc<Labels>>) -> Seq<LabelsView> {
    Seq::new(labels.len(), |i: int| labels[i]@)
}

/// The number of entries that the labels give to each axis: the samples
/// first, then each of the components, the properties last.
pub open spec fn label_counts(
    samples: LabelsView,
    components: Seq<LabelsView>,
    properties: LabelsView,
) -> Seq<nat> {
    Seq::new(
        components.len() + 2,
        |axis: int|
            if axis == 0 {
                samples.count()
            } else if axis <= components.len() {
                components[axis - 1].count()
            } else {
                properties.count()
            },
    )
}

/// Where both the labels and the array have the axis, they give it the same
/// extent.
pub open spec fn axis_agrees(counts: Seq<nat>, extents: Seq<usize>, axis: int) -> bool {
    axis < counts.len() && axis < extents.len() ==> counts[axis] == extents[axis]
}

/// The labels and the array agree on every axis that both have.
pub open spec fn axes_agree(counts: Seq<nat>, extents: Seq<usize>) -> bool {
    forall|axis: int| 0 <= axis ==> axis_agrees(counts, extents, axis)
}

/// The first axis on which the labels and the array disagree.
pub open spec fn first_disagreement(counts: Seq<nat>, extents: Seq<usize>) -> int {
    choose|axis: int|
        0 <= axis && !axis_agrees(counts, extents, axis) && forall|k: int|
            0 <= k < axis ==> axis_agrees(counts, extents, k)
}

/// The samples of a gradient refer to the samples of its parent: their first
/// dimension is `sample`, and its value in each entry is a position among
/// the samples of the parent.
pub open spec fn refers_to(parent: LabelsView, samples: LabelsView) -> bool {
    &&& samples.names.len() > 0
    &&& samples.names[0] == sample_dimension()
    &&& forall|i: int|
        0 <= i < samples.entries.len() ==> 0 <= (#[trigger] samples.entries[i])[0] < parent.count()
}

impl<E> BlockView<E> {
    /// What building a block from an array and the labels of its axes gives.
    ///
    /// The axes are examined in order. The failure reported is the first
    /// axis that both the labels and the array have and to which they give
    /// different extents; else, that they do not have the same number of
    /// axes.
    pub open spec fn new_result(
        extents: Seq<usize>,
        contents: Seq<E>,
        samples: LabelsView,
        components: Seq<LabelsView>,
        properties: LabelsView,
    ) -> Result<BlockView<E>, Error> {
        match shape_error(label_counts(samples, components, properties), extents) {
            Some(e) => Err(e),
            None => Ok(
                BlockView {
                    extents,
                    contents,
                    samples,
                    components,
                    properties,
                    gradients: Seq::empty(),
                },
            ),
        }
    }

    /// Whether the block has a gradient with respect to `parameter`.
    pub open spec fn has_gradient(self, parameter: Seq<char>) -> bool {
        exists|i: int| 0 <= i < self.gradients.len() && (#[trigger] self.gradients[i]).0 == parameter
    }

    /// A position at which the block has a gradient with respect to
    /// `parameter`. A valid block has at most one.
    pub open spec fn gradient_position(self, parameter: Seq<char>) -> int {
        choose|i: int| 0 <= i < self.gradients.len() && (#[trigger] self.gradients[i]).0 == parameter
    }

    /// The gradient with respect to `parameter`, if the block has one.
    pub open spec fn gradient(self, parameter: Seq<char>) -> Option<BlockView<E>> {
        if self.has_gradient(parameter) {
            Some(self.gradients[self.gradient_position(parameter)].1)
        } else {
            None
        }
    }

    /// A block can take `gradient` as a gradient of its values: it has the
    /// properties and the components of the block, and its samples refer to
    /// those of the block.
    pub open spec fn accepts(self, gradient: BlockView<E>) -> bool {
        &&& gradient.properties == self.properties
        &&& gradient.components == self.components
        &&& refers_to(self.samples, gradient.samples)
    }

    /// What adding `gradient` under `parameter` gives.
    ///
    /// The properties are compared first, then the components, then the
    /// samples are examined, and last the parameter is looked up among those
    /// of the gradients that the block has.
    pub open spec fn add_gradient_result(
        self,
        parameter: Seq<char>,
        gradient: BlockView<E>,
    ) -> Result<BlockView<E>, Error> {
        if gradient.properties != self.properties {
            Err(Error::PropertiesMismatch)
        } else if gradient.components != self.components {
            Err(Error::ComponentsMismatch)
        } else if !refers_to(self.samples, gradient.samples) {
            Err(Error::SamplesMismatch)
        } else if self.has_gradient(parameter) {
            Err(Error::DuplicateParameter)
        } else {
            Ok(self.with_gradient(parameter, gradient))
        }
    }

    /// The block with one more gradient after those that it has.
    pub open spec fn with_gradient(self, parameter: Seq<char>, gradient: BlockView<E>) -> BlockView<
        E,
    > {
        BlockView {
            extents: self.extents,
            contents: self.contents,
            samples: self.samples,
            components: self.components,
            properties: self.properties,
            gradients: self.gradients.push((parameter, gradient)),
        }
    }

    /// The block with the first `n` of its gradients only.
    pub open spec fn first_gradients(self, n: int) -> BlockView<E> {
        BlockView {
            extents: self.extents,
            contents: self.contents,
            samples: self.samples,
            components: self.components,
            properties: self.properties,
            gradients: self.gradients.take(n),
        }
    }

    /// The block with other elements in its array.
    pub open spec fn with_contents(self, contents: Seq<E>) -> BlockView<E> {
        BlockView {
            extents: self.extents,
            contents,
            samples: self.samples,
            components: self.components,
            properties: self.properties,
            gradients: self.gradients,
        }
    }

    /// The invariant of a block: its label sets are valid; the array has one
    /// axis for the samples, one for each of the components and one for the
    /// properties, each with as many positions as the labels have entries;
    /// every gradient is a valid block that the block accepts; and no two
    /// gradients have the same parameter.
    pub open spec fn valid(self) -> bool
        decreases self,
    {
        &&& self.samples.valid()
        &&& self.properties.valid()
        &&& forall|i: int| 0 <= i < self.components.len() ==> (#[trigger] self.components[i]).valid()
        &&& self.extents.len() == self.components.len() + 2
        &&& axes_agree(label_counts(self.samples, self.components, self.properties), self.extents)
        &&& forall|i: int|
            0 <= i < self.gradients.len() ==> {
                &&& (#[trigger] self.gradients[i]).1.valid()
                &&& self.accepts(self.gradients[i].1)
            }
        &&& forall|i: int, j: int|
            0 <= i < j < self.gradients.len() ==> (#[trigger] self.gradients[i]).0 != (
            #[trigger] self.gradients[j]).0
    }
}

/// The axis at `axis` is the first on which the labels and the array
/// disagree.
proof fn lemma_first_disagreement(counts: Seq<nat>, extents: Seq<usize>, axis: int)
    requires
        0 <= axis,
        !axis_agrees(counts, extents, axis),
        forall|k: int| 0 <= k < axis ==> axis_agrees(counts, extents, k),
    ensures
        !axes_agree(counts, extents),
        first_disagreement(counts, extents) == axis,
{
    let c = first_disagreement(counts, extents);
    assert(axis_agrees(counts, extents, c) || c >= axis);
}

/// Where the array has an axis for the component at `i`, its extent is the
/// number of entries of that component.
spec fn component_agrees(shape: Seq<usize>, components: Seq<Arc<Labels>>, i: int) -> bool {
    i + 1 < shape.len() ==> shape[i + 1] == components[i]@.count()
}

/// Finds the first component whose axis has another extent than the
/// component has entries.
fn first_component_mismatch(shape: &[usize], components: &Vec<Arc<Labels>>) -> (r: Option<usize>)
    ensures
        match r {
            Some(i) => {
                &&& i < components@.len()
                &&& i + 1 < shape@.len()
                &&& !component_agrees(shape@, components@, i as int)
                &&& forall|k: int| 0 <= k < i ==> component_agrees(shape@, components@, k)
            },
            None => forall|k: int|
                0 <= k < components@.len() ==> component_agrees(shape@, components@, k),
        },
{
    let mut i: usize = 0;
    while i < components.len()
        invariant
            i <= components@.len(),
            forall|k: int| 0 <= k < i ==> component_agrees(shape@, components@, k),
        decreases components@.len() - i,
    {
        if i + 1 < shape.len() && shape[i + 1] != components[i].count() {
            return Some(i);
        }
        i += 1;
    }
    None
}

/// What is wrong between the extents that the labels ask for and those of
/// the array, if anything: the first axis that both have and to which they
/// give different extents; else, that they do not have the same number of
/// axes.
pub open spec fn shape_error(counts: Seq<nat>, extents: Seq<usize>) -> Option<Error> {
    if !axes_agree(counts, extents) {
        let axis = first_disagreement(counts, extents);
        Some(
            Error::ShapeMismatch {
                axis: axis as usize,
                expected: counts[axis] as usize,
                actual: extents[axis],
            },
        )
    } else if extents.len() != counts.len() {
        Some(
            Error::AxisCountMismatch {
                components: (counts.len() - 2) as usize,
                actual: extents.len() as usize,
            },
        )
    } else {
        None
    }
}

/// The labels give the samples the first axis, each of the components the
/// next one, and the properties the last.
proof fn lemma_label_counts(
    samples: LabelsView,
    components: Seq<LabelsView>,
    properties: LabelsView,
)
    ensures
        label_counts(samples, components, properties).len() == components.len() + 2,
        label_counts(samples, components, properties)[0] == samples.count(),
        forall|i: int|
            0 <= i < components.len() ==> label_counts(samples, components, properties)[i + 1] == (
            #[trigger] components[i]).count(),
        label_counts(samples, components, properties)[components.len() as int + 1]
            == properties.count(),
{
}

/// Compares the shape of an array with the labels of its axes.
fn check_axes(
    shape: &[usize],
    samples: &Labels,
    components: &Vec<Arc<Labels>>,
    properties: &Labels,
) -> (r: Result<(), Error>)
    ensures
        match r {
            Ok(_) => shape_error(
                label_counts(samples@, label_views(components@), properties@),
                shape@,
            ) is None,
            Err(e) => shape_error(
                label_counts(samples@, label_views(components@), properties@),
                shape@,
            ) == Some(e),
        },
{
    let ghost views = label_views(components@);
    let ghost counts = label_counts(samples@, views, properties@);
    proof {
        lemma_label_counts(samples@, views, properties@);
    }
    let rank = shape.len();
    let n = components.len();
    if rank > 0 && shape[0] != samples.count() {
        proof {
            lemma_first_disagreement(counts, shape@, 0);
        }
        return Err(Error::ShapeMismatch { axis: 0, expected: samples.count(), actual: shape[0] });
    }
    assert(axis_agrees(counts, shape@, 0));
    match first_component_mismatch(shape, components) {
        Some(i) => {
            proof {
                assert(counts[i + 1] == views[i as int].count());
                assert forall|k: int| 0 <= k < i + 1 implies axis_agrees(counts, shape@, k) by {
                    if k > 0 {
                        assert(component_agrees(shape@, components@, k - 1));
                        assert(counts[(k - 1) + 1] == views[k - 1].count());
                    }
                }
                lemma_first_disagreement(counts, shape@, i + 1);
            }
            return Err(
                Error::ShapeMismatch {
                    axis: i + 1,
                    expected: components[i].count(),
                    actual: shape[i + 1],
                },
            );
        },
        None => {},
    }
    proof {
        assert forall|k: int| 0 <= k <= n implies axis_agrees(counts, shape@, k) by {
            if k > 0 {
                assert(component_agrees(shape@, components@, k - 1));
                assert(counts[(k - 1) + 1] == views[k - 1].count());
            }
        }
    }
    if rank >= 2 && n <= rank - 2 && shape[n + 1] != properties.count() {
        proof {
            lemma_first_disagreement(counts, shape@, n + 1);
        }
        return Err(
            Error::ShapeMismatch {
                axis: n + 1,
                expected: properties.count(),
                actual: shape[n + 1],
            },
        );
    }
    assert(axes_agree(counts, shape@)) by {
        assert forall|axis: int| 0 <= axis implies axis_agrees(counts, shape@, axis) by {
            if axis <= n {
                assert(axis_agrees(counts, shape@, axis));
            }
        }
    }
    if rank < 2 || rank - 2 != n {
        return Err(Error::AxisCountMismatch { components: n, actual: rank });
    }
    Ok(())
}

/// One array with the labels of each of its axes, and the gradients of its
/// values.
///
/// The first axis of the array is labelled by the samples, the last by the
/// properties, and each axis between them by one set of components.
#[derive(Debug)]
pub struct TensorBlock<A: Array> {
    data: A,
    samples: Arc<Labels>,
    components: Vec<Arc<Labels>>,
    properties: Arc<Labels>,
    gradients: Vec<(String, TensorBlock<A>)>,
    access: Access,
}

impl<A: Array> View for TensorBlock<A> {
    type V = BlockView<A::Element>;

    closed spec fn view(&self) -> BlockView<A::Element> {
        self.model()
    }
}

impl<A: Array> TensorBlock<A> {
    /// The block as a value.
    pub closed spec fn model(&self) -> BlockView<A::Element>
        decreases self,
    {
        BlockView {
            extents: self.data.extents(),
            contents: self.data.contents(),
            samples: self.samples@,
            components: label_views(self.components@),
            properties: self.properties@,
            gradients: Seq::new(
                self.gradients@.len(),
                |i: int|
                    if 0 <= i < self.gradients@.len() {
                        (self.gradients@[i].0@, self.gradients@[i].1.model())
                    } else {
                        arbitrary()
                    },
            ),
        }
    }

    /// The views that are outstanding on the values of the block.
    pub closed spec fn access(&self) -> AccessView {
        self.access@
    }

    /// Whether the array of the block accepts writes.
    pub closed spec fn writable(&self) -> bool {
        self.data.writable()
    }

    /// The array of the block, as it is stored.
    pub closed spec fn array(&self) -> A {
        self.data
    }

    /// The gradient at `position`, as it is stored.
    pub closed spec fn gradient_block(&self, position: int) -> TensorBlock<A> {
        self.gradients@[position].1
    }

    /// The block has the gradients of `before`, stored as they were.
    pub open spec fn gradients_kept(&self, before: TensorBlock<A>) -> bool {
        &&& self@.gradients.len() == before@.gradients.len()
        &&& forall|i: int|
            0 <= i < before@.gradients.len() ==> self.gradient_block(i) == before.gradient_block(i)
    }

    /// The block differs from `before` in its outstanding views at most: it
    /// is the same as a value, and its array and its gradients are stored as
    /// they were.
    pub open spec fn kept_but_access(&self, before: TensorBlock<A>) -> bool {
        &&& self@ == before@
        &&& self.array() == before.array()
        &&& self.writable() == before.writable()
        &&& self.gradients_kept(before)
    }

    /// The invariant of the stored block: every label set and every gradient
    /// is well formed, the outstanding views stand together, and the block
    /// is valid as a value.
    pub closed spec fn wf(&self) -> bool
        decreases self,
    {
        &&& self.samples.wf()
        &&& self.properties.wf()
        &&& forall|i: int| 0 <= i < self.components@.len() ==> (#[trigger] self.components@[i]).wf()
        &&& forall|i: int| 0 <= i < self.gradients@.len() ==> (#[trigger] self.gradients@[i]).1.wf()
        &&& self.access@.valid()
        &&& self.model().valid()
    }

    /// A well-formed block is valid as a value, and its outstanding views
    /// stand together.
    pub proof fn lemma_valid(&self)
        requires
            self.wf(),
        ensures
            self@.valid(),
            self.access().valid(),
    {
    }

    /// Builds a block from an array and the labels of its axes, without
    /// gradients and without outstanding views.
    ///
    /// Fails on the first axis to which the labels and the array give
    /// different extents, else if they do not have the same number of axes.
    pub fn new(
        data: A,
        samples: Arc<Labels>,
        components: Vec<Arc<Labels>>,
        properties: Arc<Labels>,
    ) -> (r: Result<TensorBlock<A>, Error>)
        requires
            samples.wf(),
            properties.wf(),
            forall|i: int| 0 <= i < components@.len() ==> (#[trigger] components@[i]).wf(),
        ensures
            viewed(r) == BlockView::new_result(
                data.extents(),
                data.contents(),
                samples@,
                label_views(components@),
                properties@,
            ),
            r matches Ok(block) ==> {
                &&& block.wf()
                &&& block.access() == AccessView::idle()
                &&& block.array() == data
                &&& block.writable() == data.writable()
            },
    {
        match check_axes(data.shape(), &samples, &components, &properties) {
            Err(e) => {
                return Err(e);
            },
            Ok(_) => {},
        }
        proof {
            samples.lemma_valid();
            properties.lemma_valid();
            assert forall|i: int| 0 <= i < components@.len() implies (#[trigger] label_views(
                components@,
            )[i]).valid() by {
                components@[i].lemma_valid();
            }
        }
        let block = TensorBlock {
            data,
            samples,
            components,
            properties,
            gradients: Vec::new(),
            access: Access::new(),
        };
        proof {
            assert(block.model().gradients =~= Seq::empty());
        }
        Ok(block)
    }

    /// Takes the block apart: its array, the labels of its samples, of its
    /// components and of its properties, and its gradients by parameter in
    /// the order in which they were added. Outstanding views are forgotten.
    pub fn into_parts(self) -> (parts: (
        A,
        Arc<Labels>,
        Vec<Arc<Labels>>,
        Arc<Labels>,
        Vec<(String, TensorBlock<A>)>,
    ))
        requires
            self.wf(),
        ensures
            parts.0 == self.array(),
            parts.0.extents() == self@.extents,
            parts.0.contents() == self@.contents,
            parts.0.writable() == self.writable(),
            parts.1@ == self@.samples,
            parts.1.wf(),
            label_views(parts.2@) == self@.components,
            forall|i: int| 0 <= i < parts.2@.len() ==> (#[trigger] parts.2@[i]).wf(),
            parts.3@ == self@.properties,
            parts.3.wf(),
            parts.4@.len() == self@.gradients.len(),
            forall|i: int|
                0 <= i < parts.4@.len() ==> {
                    &&& (#[trigger] parts.4@[i]).0@ == self@.gradients[i].0
                    &&& parts.4@[i].1 == self.gradient_block(i)
                    &&& parts.4@[i].1@ == self@.gradients[i].1
                    &&& parts.4@[i].1.wf()
                },
    {
        (self.data, self.samples, self.components, self.properties, self.gradients)
    }

    /// The labels of the samples.
    pub fn samples(&self) -> (labels: &Arc<Labels>)
        requires
            self.wf(),
        ensures
            labels@ == self@.samples,
            labels.wf(),
    {
        &self.samples
    }

    /// The labels of the components, one set for each axis between the
    /// first and the last.
    pub fn components(&self) -> (labels: &Vec<Arc<Labels>>)
        requires
            self.wf(),
        ensures
            label_views(labels@) == self@.components,
            forall|i: int| 0 <= i < labels@.len() ==> (#[trigger] labels@[i]).wf(),
    {
        &self.components
    }

    /// The labels of the properties.
    pub fn properties(&self) -> (labels: &Arc<Labels>)
        requires
            self.wf(),
        ensures
            labels@ == self@.properties,
            labels.wf(),
    {
        &self.properties
    }

    /// The extent of each axis of the array.
    pub fn shape(&self) -> (shape: &[usize])
        ensures
            shape@ == self@.extents,
    {
        self.data.shape()
    }

    /// The number of elements of the array.
    pub fn len(&self) -> (len: usize)
        ensures
            len == self@.contents.len(),
    {
        self.data.len()
    }

    /// The number of gradients.
    pub fn gradient_count(&self) -> (count: usize)
        ensures
            count == self@.gradients.len(),
    {
        self.gradients.len()
    }

    /// The parameter and the block of the gradient at `position`, in the
    /// order in which the gradients were added.
    pub fn gradient_at(&self, position: usize) -> (r: Result<(&String, &TensorBlock<A>), Error>)
        requires
            self.wf(),
        ensures
            match r {
                Ok((parameter, gradient)) => {
                    &&& position < self@.gradients.len()
                    &&& parameter@ == self@.gradients[position as int].0
                    &&& *gradient == self.gradient_block(position as int)
                    &&& gradient@ == self@.gradients[position as int].1
                    &&& gradient.wf()
                },
                Err(e) => {
                    &&& position >= self@.gradients.len()
                    &&& e == (Error::IndexOutOfRange {
                        index: position,
                        len: self@.gradients.len() as usize,
                    })
                },
            },
    {
        if position < self.gradients.len() {
            let pair = &self.gradients[position];
            Ok((&pair.0, &pair.1))
        } else {
            Err(Error::IndexOutOfRange { index: position, len: self.gradients.len() })
        }
    }

    /// The position of the gradient with respect to `parameter`.
    fn find_gradient(&self, parameter: &String) -> (r: Option<usize>)
        ensures
            match r {
                Some(i) => i < self@.gradients.len() && self@.gradients[i as int].0 == parameter@,
                None => !self@.has_gradient(parameter@),
            },
    {
        let mut i: usize = 0;
        while i < self.gradients.len()
            invariant
                i <= self.gradients@.len(),
                forall|k: int| 0 <= k < i ==> (#[trigger] self@.gradients[k]).0 != parameter@,
            decreases self.gradients@.len() - i,
        {
            if self.gradients[i].0 == *parameter {
                return Some(i);
            }
            i += 1;
        }
        None
    }

    /// The gradient of the values with respect to `parameter`, if the block
    /// has one.
    pub fn gradient(&self, parameter: &str) -> (r: Option<&TensorBlock<A>>)
        requires
            self.wf(),
        ensures
            match r {
                Some(gradient) => {
                    &&& self@.gradient(parameter@) == Some(gradient@)
                    &&& *gradient == self.gradient_block(self@.gradient_position(parameter@))
                    &&& gradient.wf()
                },
                None => self@.gradient(parameter@) is None,
            },
    {
        let owned = parameter.to_owned();
        match self.find_gradient(&owned) {
            Some(i) => {
                proof {
                    self@.lemma_gradient_at(i as int);
                }
                Some(&self.gradients[i].1)
            },
            None => None,
        }
    }

    /// Adds the gradient of the values with respect to `parameter`, after
    /// the gradients that the block has.
    ///
    /// Fails if the properties of the gradient are not those of the block,
    /// else if its components are not those of the block, else if its
    /// samples do not refer to those of the block, else if the block has a
    /// gradient with respect to `parameter` already. A failure leaves the
    /// block as it was.
    pub fn add_gradient(&mut self, parameter: &str, gradient: TensorBlock<A>) -> (r: Result<
        (),
        Error,
    >)
        requires
            old(self).wf(),
            gradient.wf(),
        ensures
            final(self).wf(),
            final(self).access() == old(self).access(),
            final(self).array() == old(self).array(),
            final(self).writable() == old(self).writable(),
            match r {
                Ok(_) => {
                    &&& old(self)@.add_gradient_result(parameter@, gradient@) == Ok::<
                        BlockView<A::Element>,
                        Error,
                    >(final(self)@)
                    &&& final(self).gradient_block(old(self)@.gradients.len() as int) == gradient
                    &&& forall|i: int|
                        0 <= i < old(self)@.gradients.len() ==> final(self).gradient_block(i)
                            == old(self).gradient_block(i)
                },
                Err(e) => {
                    &&& old(self)@.add_gradient_result(parameter@, gradient@) == Err::<
                        BlockView<A::Element>,
                        Error,
                    >(e)
                    &&& final(self).kept_but_access(*old(self))
                },
            },
    {
        if !gradient.properties.same_as(&self.properties) {
            return Err(Error::PropertiesMismatch);
        }
        if !same_labels(&gradient.components, &self.components) {
            return Err(Error::ComponentsMismatch);
        }
        if !samples_refer(&self.samples, &gradient.samples) {
            return Err(Error::SamplesMismatch);
        }
        let owned = parameter.to_owned();
        if self.find_gradient(&owned).is_some() {
            return Err(Error::DuplicateParameter);
        }
        let ghost before = self.model();
        let ghost added = gradient.model();
        proof {
            assert(gradient.model().valid());
        }
        self.gradients.push((owned, gradient));
        proof {
            assert(self.model().gradients =~= before.gradients.push((parameter@, added)));
            assert(self.model() == before.with_gradient(parameter@, added));
            before.lemma_with_gradient_valid(parameter@, added);
        }
        Ok(())
    }

    /// Hands out a shared view on the values, unless the exclusive view is
    /// outstanding.
    pub fn data(&mut self) -> (r: Result<ArrayRef, Error>)
        requires
            old(self).wf(),
        ensures
            final(self).wf(),
            final(self).kept_but_access(*old(self)),
            stepped(old(self).access(), final(self).access(), r, old(self).access().share()),
    {
        self.access.share()
    }

    /// Hands out the exclusive view on the values, unless some view is
    /// outstanding.
    pub fn data_mut(&mut self) -> (r: Result<ArrayRefMut, Error>)
        requires
            old(self).wf(),
        ensures
            final(self).wf(),
            final(self).kept_but_access(*old(self)),
            stepped(old(self).access(), final(self).access(), r, old(self).access().lock()),
    {
        self.access.lock()
    }

    /// Takes back a shared view. Fails if no shared view is outstanding.
    pub fn release(&mut self, view: ArrayRef) -> (r: Result<(), Error>)
        requires
            old(self).wf(),
        ensures
            final(self).wf(),
            final(self).kept_but_access(*old(self)),
            stepped(old(self).access(), final(self).access(), r, old(self).access().unshare()),
    {
        self.access.unshare(view)
    }

    /// Takes back the exclusive view. Fails if it is not outstanding.
    pub fn release_mut(&mut self, view: ArrayRefMut) -> (r: Result<(), Error>)
        requires
            old(self).wf(),
        ensures
            final(self).wf(),
            final(self).kept_but_access(*old(self)),
            stepped(old(self).access(), final(self).access(), r, old(self).access().unlock()),
    {
        self.access.unlock(view)
    }

    /// Reads the element at `offset` without a view. The borrow of the block
    /// stands for a shared view during the call.
    ///
    /// Fails with `BorrowConflict` if the exclusive view is outstanding,
    /// else with `IndexOutOfRange` if the array has no element at `offset`.
    pub fn peek(&self, offset: usize) -> (r: Result<A::Element, Error>)
        requires
            self.wf(),
        ensures
            r == peek_result(self@.contents, self.access(), offset),
    {
        if self.access.is_exclusive() {
            return Err(Error::BorrowConflict);
        }
        match self.data.read(offset) {
            Some(value) => Ok(value),
            None => Err(Error::IndexOutOfRange { index: offset, len: self.data.len() }),
        }
    }

    /// Reads the element at `offset` through a shared view.
    ///
    /// Fails with `BorrowConflict` if no shared view is outstanding, else
    /// with `IndexOutOfRange` if the array has no element at `offset`.
    pub fn read(&self, view: &ArrayRef, offset: usize) -> (r: Result<A::Element, Error>)
        requires
            self.wf(),
        ensures
            r == read_result(self@.contents, self.access(), offset),
    {
        if !self.access.is_shared() {
            return Err(Error::BorrowConflict);
        }
        match self.data.read(offset) {
            Some(value) => Ok(value),
            None => Err(Error::IndexOutOfRange { index: offset, len: self.data.len() }),
        }
    }

    /// Reads the element at `offset` through the exclusive view.
    ///
    /// Fails with `BorrowConflict` if the exclusive view is not outstanding,
    /// else with `IndexOutOfRange` if the array has no element at `offset`.
    pub fn read_mut(&self, view: &ArrayRefMut, offset: usize) -> (r: Result<A::Element, Error>)
        requires
            self.wf(),
        ensures
            r == read_mut_result(self@.contents, self.access(), offset),
    {
        if !self.access.is_exclusive() {
            return Err(Error::BorrowConflict);
        }
        match self.data.read(offset) {
            Some(value) => Ok(value),
            None => Err(Error::IndexOutOfRange { index: offset, len: self.data.len() }),
        }
    }

    /// Stores `value` at `offset` through the exclusive view.
    ///
    /// Fails with `BorrowConflict` if the exclusive view is not outstanding,
    /// else with `ReadOnly` if the array accepts no write, else with
    /// `IndexOutOfRange` if the array has no element at `offset`. A failure
    /// leaves the block as it was.
    pub fn write(&mut self, view: &ArrayRefMut, offset: usize, value: A::Element) -> (r: Result<
        (),
        Error,
    >)
        requires
            old(self).wf(),
        ensures
            final(self).wf(),
            final(self).access() == old(self).access(),
            final(self).writable() == old(self).writable(),
            final(self).gradients_kept(*old(self)),
            match r {
                Ok(_) => write_result(
                    old(self)@.contents,
                    old(self).access(),
                    old(self).writable(),
                    offset,
                    value,
                ) == Ok::<Seq<A::Element>, Error>(final(self)@.contents) && final(self)@ == old(
                    self,
                )@.with_contents(final(self)@.contents),
                Err(e) => write_result(
                    old(self)@.contents,
                    old(self).access(),
                    old(self).writable(),
                    offset,
                    value,
                ) == Err::<Seq<A::Element>, Error>(e) && final(self).kept_but_access(*old(self)),
            },
    {
        if !self.access.is_exclusive() {
            return Err(Error::BorrowConflict);
        }
        if !self.data.is_writable() {
            return Err(Error::ReadOnly);
        }
        let len = self.data.len();
        if offset >= len {
            return Err(Error::IndexOutOfRange { index: offset, len });
        }
        let ghost before = self.model();
        self.data.write(offset, value);
        proof {
            assert(self.model().gradients =~= before.gradients);
            assert(self.model() == before.with_contents(self.model().contents));
            before.lemma_with_contents_valid(self.model().contents);
        }
        Ok(())
    }
}

/// What reading at `offset` without a view gives.
pub open spec fn peek_result<E>(contents: Seq<E>, access: AccessView, offset: usize) -> Result<
    E,
    Error,
> {
    if access.exclusive {
        Err(Error::BorrowConflict)
    } else if offset >= contents.len() {
        Err(Error::IndexOutOfRange { index: offset, len: contents.len() as usize })
    } else {
        Ok(contents[offset as int])
    }
}

/// What reading at `offset` through a shared view gives.
pub open spec fn read_result<E>(contents: Seq<E>, access: AccessView, offset: usize) -> Result<
    E,
    Error,
> {
    if access.shared == 0 {
        Err(Error::BorrowConflict)
    } else if offset >= contents.len() {
        Err(Error::IndexOutOfRange { index: offset, len: contents.len() as usize })
    } else {
        Ok(contents[offset as int])
    }
}

/// What reading at `offset` through the exclusive view gives.
pub open spec fn read_mut_result<E>(contents: Seq<E>, access: AccessView, offset: usize) -> Result<
    E,
    Error,
> {
    if !access.exclusive {
        Err(Error::BorrowConflict)
    } else if offset >= contents.len() {
        Err(Error::IndexOutOfRange { index: offset, len: contents.len() as usize })
    } else {
        Ok(contents[offset as int])
    }
}

/// What storing `value` at `offset` through the exclusive view makes of the
/// elements.
pub open spec fn write_result<E>(
    contents: Seq<E>,
    access: AccessView,
    writable: bool,
    offset: usize,
    value: E,
) -> Result<Seq<E>, Error> {
    if !access.exclusive {
        Err(Error::BorrowConflict)
    } else if !writable {
        Err(Error::ReadOnly)
    } else if offset >= contents.len() {
        Err(Error::IndexOutOfRange { index: offset, len: contents.len() as usize })
    } else {
        Ok(contents.update(offset as int, value))
    }
}

/// Whether two lists hold equal label sets in the same order.
pub fn same_labels(a: &Vec<Arc<Labels>>, b: &Vec<Arc<Labels>>) -> (same: bool)
    ensures
        same == (label_views(a@) == label_views(b@)),
{
    if a.len() != b.len() {
        assert(label_views(a@).len() != label_views(b@).len());
        return false;
    }
    let mut i: usize = 0;
    while i < a.len()
        invariant
            i <= a@.len() == b@.len(),
            forall|k: int| 0 <= k < i ==> (#[trigger] a@[k])@ == b@[k]@,
        decreases a@.len() - i,
    {
        if !a[i].same_as(&b[i]) {
            assert(label_views(a@)[i as int] != label_views(b@)[i as int]);
            return false;
        }
        i += 1;
    }
    proof {
        assert(label_views(a@) =~= label_views(b@));
    }
    true
}

/// Whether `samples` refer to the samples of a parent.
fn samples_refer(parent: &Labels, samples: &Labels) -> (r: bool)
    requires
        samples.wf(),
    ensures
        r == refers_to(parent@, samples@),
{
    if samples.size() == 0 {
        return false;
    }
    let names = samples.names();
    assert(samples@.names[0] == names@[0]@);
    if names[0] != "sample".to_owned() {
        return false;
    }
    let count = parent.count();
    let n = samples.count();
    proof {
        samples.lemma_valid();
    }
    let mut i: usize = 0;
    while i < n
        invariant
            i <= n == samples@.count(),
            count == parent@.count(),
            samples@.valid(),
            samples@.names.len() > 0,
            forall|k: int|
                0 <= k < i ==> 0 <= (#[trigger] samples@.entries[k])[0] < parent@.count(),
        decreases n - i,
    {
        match samples.entry(i) {
            Ok(entry) => {
                assert(LabelsView::entry_ok(samples@.size(), samples@.entries, i as int));
                let value = entry[0];
                if value < 0 || value as u64 >= count as u64 {
                    return false;
                }
            },
            Err(_) => {
                return false;
            },
        }
        i += 1;
    }
    true
}

impl<E> BlockView<E> {
    /// In a valid block the gradient with respect to the parameter at `i` is
    /// the gradient at `i`.
    pub proof fn lemma_gradient_at(self, i: int)
        requires
            self.valid(),
            0 <= i < self.gradients.len(),
        ensures
            self.gradient_position(self.gradients[i].0) == i,
            self.gradient(self.gradients[i].0) == Some(self.gradients[i].1),
    {
        let c = self.gradient_position(self.gradients[i].0);
        if c < i {
            assert(self.gradients[c].0 != self.gradients[i].0);
        } else if i < c {
            assert(self.gradients[i].0 != self.gradients[c].0);
        }
    }

    /// A valid block with one more gradient that is valid, that it accepts
    /// and whose parameter is new, is valid.
    pub proof fn lemma_with_gradient_valid(self, parameter: Seq<char>, gradient: BlockView<E>)
        requires
            self.valid(),
            gradient.valid(),
            self.accepts(gradient),
            !self.has_gradient(parameter),
        ensures
            self.with_gradient(parameter, gradient).valid(),
    {
        let after = self.with_gradient(parameter, gradient);
        assert forall|i: int| 0 <= i < after.gradients.len() implies (
        #[trigger] after.gradients[i]).1.valid() && after.accepts(after.gradients[i].1) by {
            if i < self.gradients.len() {
                assert(after.gradients[i] == self.gradients[i]);
            }
        }
        assert forall|i: int, j: int| 0 <= i < j < after.gradients.len() implies (
        #[trigger] after.gradients[i]).0 != (#[trigger] after.gradients[j]).0 by {
            assert(after.gradients[i] == self.gradients[i]);
            if j < self.gradients.len() {
                assert(after.gradients[j] == self.gradients[j]);
            }
        }
    }

    /// A valid block stays valid when the elements of its array change.
    pub proof fn lemma_with_contents_valid(self, contents: Seq<E>)
        requires
            self.valid(),
        ensures
            self.with_contents(contents).valid(),
    {
    }
}

/// A block whose labels are valid, whose array has an axis for the samples
/// with another extent than the samples have entries, is refused with
/// `ShapeMismatch` for axis 0, whatever the other axes are.
pub proof fn lemma_new_reports_samples_axis<E>(
    extents: Seq<usize>,
    contents: Seq<E>,
    samples: LabelsView,
    components: Seq<LabelsView>,
    properties: LabelsView,
)
    requires
        extents.len() > 0,
        extents[0] != samples.count(),
    ensures
        BlockView::new_result(extents, contents, samples, components, properties) == Err::<
            BlockView<E>,
            Error,
        >(
            Error::ShapeMismatch {
                axis: 0,
                expected: samples.count() as usize,
                actual: extents[0],
            },
        ),
{
    lemma_first_disagreement(label_counts(samples, components, properties), extents, 0);
}

/// A gradient whose properties are not those of the block is refused with
/// `PropertiesMismatch`, whatever else holds of it.
pub proof fn lemma_add_gradient_reports_properties<E>(
    block: BlockView<E>,
    parameter: Seq<char>,
    gradient: BlockView<E>,
)
    requires
        gradient.properties != block.properties,
    ensures
        block.add_gradient_result(parameter, gradient) == Err::<BlockView<E>, Error>(
            Error::PropertiesMismatch,
        ),
{
}

/// Building a block again from the array and the labels of a valid block,
/// and adding its gradients one by one in their order, gives the block:
/// the first step gives the block without gradients, each further step
/// gives the block with one more of its gradients, and the block with all
/// its gradients is the block itself. The gradients are valid blocks, so
/// the same holds of each of them.
pub proof fn lemma_rebuild_block<E>(block: BlockView<E>)
    requires
        block.valid(),
    ensures
        BlockView::new_result(
            block.extents,
            block.contents,
            block.samples,
            block.components,
            block.properties,
        ) == Ok::<BlockView<E>, Error>(block.first_gradients(0)),
        forall|n: int|
            0 <= n < block.gradients.len() ==> #[trigger] block.first_gradients(
                n,
            ).add_gradient_result(block.gradients[n].0, block.gradients[n].1) == Ok::<
                BlockView<E>,
                Error,
            >(block.first_gradients(n + 1)),
        block.first_gradients(block.gradients.len() as int) == block,
        forall|n: int| 0 <= n < block.gradients.len() ==> (#[trigger] block.gradients[n]).1.valid(),
{
    assert(block.gradients.take(0) =~= Seq::empty());
    assert(block.gradients.take(block.gradients.len() as int) =~= block.gradients);
    assert forall|n: int| 0 <= n < block.gradients.len() implies #[trigger] block.first_gradients(
        n,
    ).add_gradient_result(block.gradients[n].0, block.gradients[n].1) == Ok::<
        BlockView<E>,
        Error,
    >(block.first_gradients(n + 1)) by {
        lemma_rebuild_step(block, n);
    }
}

/// Adding the gradient at `n` of a valid block to the block with its first
/// `n` gradients gives the block with its first `n + 1` gradients.
proof fn lemma_rebuild_step<E>(block: BlockView<E>, n: int)
    requires
        block.valid(),
        0 <= n < block.gradients.len(),
    ensures
        block.first_gradients(n).add_gradient_result(
            block.gradients[n].0,
            block.gradients[n].1,
        ) == Ok::<BlockView<E>, Error>(block.first_gradients(n + 1)),
{
    let prefix = block.first_gradients(n);
    assert(block.accepts(block.gradients[n].1));
    assert(!prefix.has_gradient(block.gradients[n].0)) by {
        if prefix.has_gradient(block.gradients[n].0) {
            let c = choose|c: int|
                0 <= c < prefix.gradients.len() && (#[trigger] prefix.gradients[c]).0
                    == block.gradients[n].0;
            assert(prefix.gradients[c] == block.gradients[c]);
            assert(block.gradients[c].0 != block.gradients[n].0);
        }
    }
    assert(block.gradients.take(n).push(block.gradients[n]) =~= block.gradients.take(n + 1));
}

} // verus!
