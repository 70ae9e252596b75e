use imagenet_wds::dataset::{PlainTarDataset, RemoteTarEntry};
use imagenet_wds::indexer::ShardIndexer;
use imagenet_wds::lexical::{compare_keys, KeyOrder};
use imagenet_wds::naming::entry_class_key;

fn entry(url: &str, name: &str, label: usize) -> RemoteTarEntry {
    RemoteTarEntry { shard_url: url.to_string(), filename: name.to_string(), label }
}

fn summary(ds: &PlainTarDataset) -> Vec<(String, String, usize)> {
    ds.items.iter().map(|e| (e.shard_url.clone(), e.filename.clone(), e.label)).collect()
}

fn sample() -> PlainTarDataset {
    PlainTarDataset {
        items: vec![entry("u0", "a", 0), entry("u0", "b", 1), entry("u1", "c", 0), entry("u1", "d", 2)],
    }
}

#[test]
fn split_keeps_order_and_every_entry() {
    let ds = sample();
    let (train, valid) = ds.split(3);
    assert_eq!(summary(&train), summary(&sample())[..3].to_vec());
    assert_eq!(summary(&valid), summary(&sample())[3..].to_vec());
    assert_eq!(train.len() + valid.len(), ds.len());
}

#[test]
fn split_at_the_ends() {
    let ds = sample();
    let (train, valid) = ds.split(0);
    assert_eq!(train.len(), 0);
    assert_eq!(summary(&valid), summary(&ds));
    let (train, valid) = ds.split(4);
    assert_eq!(summary(&train), summary(&ds));
    assert_eq!(valid.len(), 0);
}

#[test]
fn entry_looks_up_by_index() {
    let ds = sample();
    assert_eq!(ds.entry(1).map(|e| e.filename.clone()), Some("b".to_string()));
    assert!(ds.entry(4).is_none());
    assert_eq!(ds.len(), 4);
}

#[test]
fn clone_copies_the_index() {
    let ds = sample();
    assert_eq!(summary(&ds.clone()), summary(&ds));
}

#[test]
fn indexer_labels_classes_in_sorted_order() {
    let mut ix = ShardIndexer::new();
    assert!(ix.observe("s0", "n03_1.JPEG"));
    assert!(ix.observe("s0", "n01_1.jpg"));
    assert!(!ix.observe("s0", "n01_1.cls"));
    assert!(!ix.observe("s0", "ILSVRC2012_val_00000001.JPEG"));
    assert!(ix.observe("s1", "sub/n02_9.png"));
    assert!(ix.observe("s1", "n01_2.jpeg"));
    assert!(ix.observe("s1", "n10_2.jpeg"));
    assert_eq!(ix.class_count(), 4);
    let ds = ix.finish();
    assert_eq!(
        summary(&ds),
        vec![
            ("s0".to_string(), "n03_1.JPEG".to_string(), 2),
            ("s0".to_string(), "n01_1.jpg".to_string(), 0),
            ("s1".to_string(), "sub/n02_9.png".to_string(), 1),
            ("s1".to_string(), "n01_2.jpeg".to_string(), 0),
            ("s1".to_string(), "n10_2.jpeg".to_string(), 3),
        ]
    );
}

#[test]
fn indexer_labels_match_sorted_unique_keys() {
    let names = ["n5_a.jpg", "n1_b.jpg", "n5_c.jpg", "nb_d.png", "na_e.png", "n10_f.JPEG", "n1_g.jpg"];
    let mut ix = ShardIndexer::new();
    for n in names {
        assert!(ix.observe("shard", n));
    }
    let mut keys: Vec<String> = names.iter().map(|n| n.split('_').next().unwrap().to_string()).collect();
    let per_item = keys.clone();
    keys.sort();
    keys.dedup();
    assert_eq!(ix.class_count(), keys.len());
    let ds = ix.finish();
    for (item, key) in ds.items.iter().zip(per_item.iter()) {
        assert_eq!(item.label, keys.iter().position(|k| k == key).unwrap());
    }
    let mut labels: Vec<usize> = ds.items.iter().map(|e| e.label).collect();
    labels.sort();
    labels.dedup();
    assert_eq!(labels, (0..keys.len()).collect::<Vec<_>>());
}

#[test]
fn empty_indexer_gives_empty_index() {
    let ix = ShardIndexer::new();
    assert_eq!(ix.class_count(), 0);
    assert_eq!(ix.finish().len(), 0);
}

#[test]
fn key_comparison_orders_by_code_point() {
    let k = |s: &str| s.chars().collect::<Vec<char>>();
    assert_eq!(compare_keys(&k("n01"), &k("n02")), KeyOrder::Less);
    assert_eq!(compare_keys(&k("n1"), &k("n01")), KeyOrder::Greater);
    assert_eq!(compare_keys(&k("n0"), &k("n01")), KeyOrder::Less);
    assert_eq!(compare_keys(&k("n01"), &k("n01")), KeyOrder::Equal);
    assert_eq!(compare_keys(&k("Z"), &k("a")), KeyOrder::Less);
    assert_eq!(compare_keys(&k(""), &k("")), KeyOrder::Equal);
    assert_eq!(compare_keys(&k("é"), &k("z")), KeyOrder::Greater);
}

#[test]
fn labels_do_not_depend_on_reading_order() {
    let names = ["n3_a.jpg", "n1_b.jpg", "n2_c.jpg", "n1_d.jpg"];
    let label_by_key = |order: &[&str]| {
        let mut ix = ShardIndexer::new();
        for n in order {
            ix.observe("s", n);
        }
        let ds = ix.finish();
        let mut pairs: Vec<(String, usize)> = ds
            .items
            .iter()
            .map(|e| (e.filename.split('_').next().unwrap().to_string(), e.label))
            .collect();
        pairs.sort();
        pairs.dedup();
        pairs
    };
    let reversed: Vec<&str> = names.iter().rev().cloned().collect();
    assert_eq!(label_by_key(&names), label_by_key(&reversed));
    assert_eq!(
        label_by_key(&names),
        vec![("n1".to_string(), 0), ("n2".to_string(), 1), ("n3".to_string(), 2)]
    );
}

#[test]
fn finished_entries_carry_the_key_of_their_path() {
    let mut ix = ShardIndexer::new();
    for n in ["d/n7_x.png", "n2_y.jpg", "skip.txt", "n7_z.JPEG"] {
        ix.observe("s", n);
    }
    let ds = ix.finish();
    assert_eq!(ds.len(), 3);
    let keys: Vec<String> = ds
        .items
        .iter()
        .map(|e| entry_class_key(&e.filename).unwrap().into_iter().collect())
        .collect();
    assert_eq!(keys, vec!["n7", "n2", "n7"]);
    assert_eq!(ds.items[0].label, ds.items[2].label);
    assert!(format!("{:?}", ds.items[1]).contains("n2_y.jpg"));
}
