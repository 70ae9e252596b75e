use imagenet_wds::batch::{batch_targets, concat_images};
use imagenet_wds::scan::{scan_step, ScanStep};

#[test]
fn scan_step_takes_only_the_wanted_entry() {
    assert_eq!(scan_step(Some("n01_1.jpg"), "n01_1.jpg"), ScanStep::Take);
    assert_eq!(scan_step(Some("n01_2.jpg"), "n01_1.jpg"), ScanStep::Skip);
    assert_eq!(scan_step(Some("dir/n01_1.jpg"), "n01_1.jpg"), ScanStep::Skip);
    assert_eq!(scan_step(None, "n01_1.jpg"), ScanStep::GiveUp);
    assert_eq!(scan_step(Some(""), ""), ScanStep::Take);
}

#[test]
fn reordered_batch_keeps_images_with_labels() {
    let images = vec![vec![1u8, 1], vec![2, 2], vec![3, 3]];
    let labels = vec![10usize, 20, 30];
    let order = [2usize, 0, 1];
    let images2: Vec<Vec<u8>> = order.iter().map(|&i| images[i].clone()).collect();
    let labels2: Vec<usize> = order.iter().map(|&i| labels[i]).collect();
    let data = concat_images(images.clone());
    let data2 = concat_images(images2);
    let targets = batch_targets(&labels);
    let targets2 = batch_targets(&labels2);
    for (k, &i) in order.iter().enumerate() {
        assert_eq!(data2[2 * k..2 * k + 2], data[2 * i..2 * i + 2]);
        assert_eq!(targets2[k], targets[i]);
    }
}
