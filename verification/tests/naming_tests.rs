use imagenet_wds::naming::{class_key, entry_class_key, file_name, is_image_entry, shard_url};

fn chars(s: &str) -> Vec<char> {
    s.chars().collect()
}

fn key_string(key: Option<Vec<char>>) -> Option<String> {
    key.map(|k| k.into_iter().collect())
}

#[test]
fn shard_url_pads_to_four_digits() {
    assert_eq!(
        shard_url("validation", 0),
        "https://huggingface.co/datasets/timm/imagenet-1k-wds/resolve/main/imagenet1k-validation-0000.tar"
    );
    assert_eq!(
        shard_url("train", 37),
        "https://huggingface.co/datasets/timm/imagenet-1k-wds/resolve/main/imagenet1k-train-0037.tar"
    );
    assert_eq!(
        shard_url("train", 1023),
        "https://huggingface.co/datasets/timm/imagenet-1k-wds/resolve/main/imagenet1k-train-1023.tar"
    );
}

#[test]
fn shard_url_keeps_wider_numbers_whole() {
    assert_eq!(
        shard_url("train", 12345),
        "https://huggingface.co/datasets/timm/imagenet-1k-wds/resolve/main/imagenet1k-train-12345.tar"
    );
}

#[test]
fn shard_urls_of_distinct_shards_differ() {
    let mut seen = std::collections::HashSet::new();
    for i in 0..1100 {
        assert!(seen.insert(shard_url("validation", i)));
    }
}

#[test]
fn image_extensions_are_recognised() {
    assert!(is_image_entry(&chars("a.jpg")));
    assert!(is_image_entry(&chars("dir/b.jpeg")));
    assert!(is_image_entry(&chars("c.png")));
    assert!(is_image_entry(&chars("n01440764_10026.JPEG")));
    assert!(!is_image_entry(&chars("n01440764_10026.cls")));
    assert!(!is_image_entry(&chars("x.JPG")));
    assert!(!is_image_entry(&chars("jpg")));
    assert!(!is_image_entry(&chars("")));
}

#[test]
fn file_name_agrees_with_std_path() {
    let paths = [
        "n01_1.jpg",
        "dir/n01_1.jpg",
        "a/b/c.png",
        "a/b/",
        "a/b/.",
        "a/./b",
        "./x",
        ".",
        "./",
        "..",
        "a/..",
        "a/../",
        "/",
        "",
        "//a//b//",
        "/.",
        "...",
        "a/...",
        ".hidden",
        "a/.hidden/.",
    ];
    for p in paths {
        let expected = std::path::Path::new(p)
            .file_name()
            .map(|n| n.to_string_lossy().into_owned());
        let got = file_name(&chars(p)).map(|v| v.into_iter().collect::<String>());
        assert_eq!(got, expected, "path {:?}", p);
    }
}

#[test]
fn class_key_is_part_before_first_underscore() {
    assert_eq!(key_string(class_key(&chars("n01440764_10026.JPEG"))), Some("n01440764".to_string()));
    assert_eq!(key_string(class_key(&chars("n01_a_b.jpg"))), Some("n01".to_string()));
    assert_eq!(key_string(class_key(&chars("n.jpg"))), Some("n.jpg".to_string()));
    assert_eq!(key_string(class_key(&chars("ILSVRC2012_val_00000001.JPEG"))), None);
    assert_eq!(key_string(class_key(&chars("_n01.jpg"))), None);
    assert_eq!(key_string(class_key(&chars(""))), None);
}

#[test]
fn entry_class_key_filters_entries() {
    assert_eq!(
        key_string(entry_class_key("n01440764/n01440764_10026.JPEG")),
        Some("n01440764".to_string())
    );
    assert_eq!(key_string(entry_class_key("n02_7.png")), Some("n02".to_string()));
    assert_eq!(key_string(entry_class_key("n01440764_10026.cls")), None);
    assert_eq!(key_string(entry_class_key("ILSVRC2012_val_00000001.JPEG")), None);
    assert_eq!(key_string(entry_class_key("n01/..")), None);
    assert_eq!(key_string(entry_class_key("x/n0_1.jpg/")), None);
    assert_eq!(key_string(entry_class_key("nest/n9_1.jpg/.")), None);
}

#[test]
fn backslash_and_drive_prefix_belong_to_the_name() {
    assert_eq!(
        file_name(&chars("dir\\n01_x.jpg")).map(|v| v.into_iter().collect::<String>()),
        Some("dir\\n01_x.jpg".to_string())
    );
    assert_eq!(
        file_name(&chars("C:n01_x.jpg")).map(|v| v.into_iter().collect::<String>()),
        Some("C:n01_x.jpg".to_string())
    );
    assert_eq!(key_string(entry_class_key("dir\\n01_x.jpg")), None);
}
