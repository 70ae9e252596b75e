//! Assembling a training batch: the images laid end to end and the labels as targets.

use vstd::prelude::*;

verus! {

/// The views of a list of images, each a sequence of values.
pub open spec fn image_views<T>(images: Seq<Vec<T>>) -> Seq<Seq<T>> {
    images.map_values(|image: Vec<T>| image@)
}

/// Row `k` of a buffer laid out in rows of `width` values.
pub open spec fn row<T>(data: Seq<T>, width: nat, k: int) -> Seq<T> {
    data.subrange(k * width, (k + 1) * width)
}

/// Every image holds exactly `width` values.
pub open spec fn all_of_length<T>(images: Seq<Seq<T>>, width: nat) -> bool {
    forall|i: int| 0 <= i < images.len() ==> (#[trigger] images[i]).len() == width
}

/// The targets of a batch: each label as a 64-bit integer.
pub open spec fn targets_of(labels: Seq<usize>) -> Seq<i64> {
    labels.map_values(|l: usize| l as i64)
}

/// Images of equal length laid end to end: image `k` is row `k` of the buffer.
pub proof fn lemma_flatten_rows<T>(images: Seq<Seq<T>>, width: nat)
    requires
        all_of_length(images, width),
    ensures
        images.flatten().len() == images.len() * width,
        forall|k: int| 0 <= k < images.len() ==> #[trigger] row(images.flatten(), width, k) == images[k],
    decreases images.len(),
{
    if images.len() == 0 {
        assert(images.len() * width == 0) by (nonlinear_arith)
            requires
                images.len() == 0,
        ;
    } else {
        let rest = images.drop_first();
        let n = images.len();
        assert(all_of_length(rest, width)) by {
            assert forall|i: int| 0 <= i < rest.len() implies (#[trigger] rest[i]).len() == width by {
                assert(rest[i] == images[i + 1]);
            }
        }
        lemma_flatten_rows(rest, width);
        let flat = images.flatten();
        assert(flat == images[0] + rest.flatten());
        assert(images[0].len() == width);
        assert(width + (n - 1) * width == n * width) by (nonlinear_arith);
        assert forall|k: int| 0 <= k < images.len() implies #[trigger] row(flat, width, k) == images[k] by {
            assert(0 <= k * width) by (nonlinear_arith)
                requires
                    0 <= k,
            ;
            assert((k + 1) * width <= n * width) by (nonlinear_arith)
                requires
                    k + 1 <= n,
            ;
            if k == 0 {
                assert(0 * width == 0 && (0 + 1) * width == width) by (nonlinear_arith);
                assert(row(flat, width, 0) =~= images[0]);
            } else {
                assert(k * width - width == (k - 1) * width) by (nonlinear_arith);
                assert((k + 1) * width - width == k * width) by (nonlinear_arith);
                assert(width <= k * width) by (nonlinear_arith)
                    requires
                        1 <= k,
                ;
                assert(row(rest.flatten(), width, k - 1) == rest[k - 1]);
                assert(row(flat, width, k) =~= row(rest.flatten(), width, k - 1));
            }
        }
    }
}

/// Reordering a batch keeps each image with its own label: where the reordered batch holds
/// at position `k` the image and the label found at `order[k]` in the first, row `k` of its
/// buffer is row `order[k]` of the first buffer, and its target `k` is target `order[k]`.
pub proof fn lemma_batch_keeps_pairs<T>(
    images: Seq<Seq<T>>,
    labels: Seq<usize>,
    reordered_images: Seq<Seq<T>>,
    reordered_labels: Seq<usize>,
    order: Seq<int>,
    width: nat,
)
    requires
        all_of_length(images, width),
        labels.len() == images.len(),
        order.len() == images.len(),
        reordered_images.len() == images.len(),
        reordered_labels.len() == images.len(),
        forall|k: int|
            0 <= k < order.len() ==> 0 <= #[trigger] order[k] < images.len()
                && reordered_images[k] == images[order[k]] && reordered_labels[k] == labels[order[k]],
    ensures
        forall|k: int|
            0 <= k < order.len() ==> #[trigger] row(reordered_images.flatten(), width, k) == row(
                images.flatten(),
                width,
                order[k],
            ) && targets_of(reordered_labels)[k] == targets_of(labels)[order[k]],
{
    lemma_flatten_rows(images, width);
    assert(all_of_length(reordered_images, width)) by {
        assert forall|i: int| 0 <= i < reordered_images.len() implies (
        #[trigger] reordered_images[i]).len() == width by {
            assert(0 <= order[i] < images.len());
            assert(images[order[i]].len() == width);
        }
    }
    lemma_flatten_rows(reordered_images, width);
    assert forall|k: int| 0 <= k < order.len() implies #[trigger] row(
        reordered_images.flatten(),
        width,
        k,
    ) == row(images.flatten(), width, order[k]) && targets_of(reordered_labels)[k] == targets_of(
        labels,
    )[order[k]] by {
        assert(0 <= order[k] < images.len());
        assert(row(images.flatten(), width, order[k]) == images[order[k]]);
        assert(row(reordered_images.flatten(), width, k) == reordered_images[k]);
    }
}

/// All images of a batch laid end to end, in batch order, into one buffer.
pub fn concat_images<T: Copy>(images: Vec<Vec<T>>) -> (data: Vec<T>)
    ensures
        data@ == image_views(images@).flatten(),
{
    let mut data: Vec<T> = Vec::new();
    let mut i: usize = 0;
    while i < images.len()
        invariant
            i <= images@.len(),
            data@ == image_views(images@).take(i as int).flatten(),
        decreases images@.len() - i,
    {
        let image = &images[i];
        let ghost before = data@;
        let mut j: usize = 0;
        while j < image.len()
            invariant
                j <= image@.len(),
                data@ == before + image@.take(j as int),
            decreases image@.len() - j,
        {
            data.push(image[j]);
            proof {
                assert(image@.take(j + 1) =~= image@.take(j as int).push(image@[j as int]));
            }
            j = j + 1;
        }
        proof {
            let views = image_views(images@);
            assert(views.take(i + 1) =~= views.take(i as int).push(image@));
            views.take(i as int).lemma_flatten_push(image@);
            assert(image@.take(j as int) =~= image@);
        }
        i = i + 1;
    }
    proof {
        assert(image_views(images@).take(i as int) =~= image_views(images@));
    }
    data
}

/// The labels of a batch as the 64-bit integers the loss function takes, in batch order.
pub fn batch_targets(labels: &Vec<usize>) -> (targets: Vec<i64>)
    ensures
        targets@.len() == labels@.len(),
        forall|i: int| 0 <= i < labels@.len() ==> #[trigger] targets@[i] == labels@[i] as i64,
        targets@ == targets_of(labels@),
{
    let mut targets: Vec<i64> = Vec::new();
    let mut i: usize = 0;
    while i < labels.len()
        invariant
            i <= labels@.len(),
            targets@.len() == i,
            forall|k: int| 0 <= k < i ==> #[trigger] targets@[k] == labels@[k] as i64,
        decreases labels@.len() - i,
    {
        targets.push(labels[i] as i64);
        i = i + 1;
    }
    assert(targets@ =~= targets_of(labels@));
    targets
}

} // verus!
