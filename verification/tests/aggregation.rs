use zfs_stats::aggregate::{aggregate, classify, Category};
use zfs_stats::types::{
    Dataset, DatasetProperties, OutputVersion, Property, PropertySource, ZfsListOutput, ZfsStats,
};

fn property(value: &str) -> Property {
    Property {
        value: value.to_string(),
        source: PropertySource { source_type: "NONE".to_string(), data: "-".to_string() },
    }
}

fn dataset(name: &str, kind: &str, pool: &str, used: &str, available: &str) -> Dataset {
    Dataset {
        name: name.to_string(),
        dataset_type: kind.to_string(),
        pool: pool.to_string(),
        createtxg: "1".to_string(),
        dataset: None,
        snapshot_name: None,
        properties: DatasetProperties {
            used: property(used),
            available: property(available),
            referenced: property("96K"),
            mountpoint: property("/"),
        },
    }
}

fn listing(datasets: Vec<Dataset>) -> ZfsListOutput {
    ZfsListOutput {
        output_version: OutputVersion {
            command: "zfs list".to_string(),
            vers_major: 0,
            vers_minor: 1,
        },
        datasets: datasets.into_iter().map(|d| (d.name.clone(), d)).collect(),
    }
}

fn names(list: &[Dataset]) -> Vec<&str> {
    list.iter().map(|d| d.name.as_str()).collect()
}

fn summary(datasets: Vec<Dataset>) -> ZfsStats {
    aggregate(listing(datasets))
}

#[test]
fn nested_filesystems_are_not_counted_twice() {
    let stats = summary(vec![
        dataset("pool/fs1/child", "FILESYSTEM", "pool", "5G", "1G"),
        dataset("pool@snap1", "SNAPSHOT", "pool", "0B", "-"),
        dataset("pool/fs1", "FILESYSTEM", "pool", "10G", "20G"),
    ]);
    assert_eq!(stats.total_used, "10.0G");
    assert_eq!(stats.total_available, "20.0G");
    assert_eq!(names(&stats.filesystems), vec!["pool/fs1", "pool/fs1/child"]);
    assert_eq!(names(&stats.snapshots), vec!["pool@snap1"]);
    assert!(stats.bookmarks.is_empty());
    assert_eq!(stats.pools, vec!["pool"]);
}

#[test]
fn unknown_type_is_dropped_but_names_its_pool() {
    let stats = summary(vec![dataset("tank/copy", "CLONE", "tank", "1G", "1G")]);
    assert!(stats.filesystems.is_empty());
    assert!(stats.snapshots.is_empty());
    assert!(stats.bookmarks.is_empty());
    assert_eq!(stats.pools, vec!["tank"]);
    assert_eq!(stats.total_used, "0B");
    assert_eq!(stats.total_available, "0B");
}

#[test]
fn pools_are_unique_and_sorted() {
    let mut datasets = Vec::new();
    for i in 0..50 {
        datasets.push(dataset(&format!("zeta/fs{}", i), "FILESYSTEM", "zeta", "1K", "1K"));
    }
    datasets.push(dataset("alpha", "FILESYSTEM", "alpha", "1K", "1K"));
    datasets.push(dataset("mid/a", "FILESYSTEM", "mid", "1K", "1K"));
    datasets.push(dataset("alpha/b", "FILESYSTEM", "alpha", "1K", "1K"));
    let stats = summary(datasets);
    assert_eq!(stats.pools, vec!["alpha", "mid", "zeta"]);
    assert_eq!(stats.filesystems.len(), 53);
    assert_eq!(stats.total_used, "53.0K");
}

#[test]
fn fifty_datasets_of_one_pool() {
    let mut datasets = Vec::new();
    for i in 0..50 {
        datasets.push(dataset(&format!("tank/fs{:02}", 49 - i), "FILESYSTEM", "tank", "-", "-"));
    }
    let stats = summary(datasets);
    assert_eq!(stats.pools, vec!["tank"]);
    let listed = names(&stats.filesystems);
    assert_eq!(listed.len(), 50);
    assert_eq!(listed[0], "tank/fs00");
    assert_eq!(listed[49], "tank/fs49");
    assert!(listed.windows(2).all(|pair| pair[0] < pair[1]));
}

#[test]
fn undecodable_size_adds_nothing() {
    let stats = summary(vec![
        dataset("pool/a", "FILESYSTEM", "pool", "bad", "2G"),
        dataset("pool/b", "FILESYSTEM", "pool", "3G", "5Q"),
    ]);
    assert_eq!(names(&stats.filesystems), vec!["pool/a", "pool/b"]);
    assert_eq!(stats.total_used, "3.00G");
    assert_eq!(stats.total_available, "2.00G");
}

#[test]
fn empty_listing() {
    let stats = summary(Vec::new());
    assert!(stats.pools.is_empty());
    assert!(stats.filesystems.is_empty());
    assert!(stats.snapshots.is_empty());
    assert!(stats.bookmarks.is_empty());
    assert_eq!(stats.total_used, "0B");
    assert_eq!(stats.total_available, "0B");
}

#[test]
fn categories_are_sorted_by_name() {
    let stats = summary(vec![
        dataset("pool/b@2", "SNAPSHOT", "pool", "1K", "-"),
        dataset("pool/b#mark", "BOOKMARK", "pool", "-", "-"),
        dataset("pool/b", "FILESYSTEM", "pool", "1K", "1K"),
        dataset("pool/a@1", "SNAPSHOT", "pool", "1K", "-"),
        dataset("pool/a#mark", "BOOKMARK", "pool", "-", "-"),
        dataset("pool", "FILESYSTEM", "pool", "2K", "8K"),
        dataset("pool/B", "FILESYSTEM", "pool", "1K", "1K"),
        dataset("pool/a", "FILESYSTEM", "pool", "1K", "1K"),
    ]);
    assert_eq!(names(&stats.filesystems), vec!["pool", "pool/B", "pool/a", "pool/b"]);
    assert_eq!(names(&stats.snapshots), vec!["pool/a@1", "pool/b@2"]);
    assert_eq!(names(&stats.bookmarks), vec!["pool/a#mark", "pool/b#mark"]);
    assert_eq!(stats.total_used, "5.00K");
    assert_eq!(stats.total_available, "11.0K");
}

#[test]
fn names_sort_by_code_point() {
    let stats = summary(vec![
        dataset("p/\u{e9}", "FILESYSTEM", "p", "-", "-"),
        dataset("p/z", "FILESYSTEM", "p", "-", "-"),
        dataset("p/\u{1f600}", "FILESYSTEM", "p", "-", "-"),
        dataset("p/\u{ff5e}", "FILESYSTEM", "p", "-", "-"),
        dataset("p/", "FILESYSTEM", "p", "-", "-"),
        dataset("p", "FILESYSTEM", "p", "-", "-"),
    ]);
    let mut expected = vec!["p/\u{e9}", "p/z", "p/\u{1f600}", "p/\u{ff5e}", "p/", "p"];
    expected.sort();
    assert_eq!(names(&stats.filesystems), expected);
    assert_eq!(names(&stats.filesystems)[0], "p");
    assert_eq!(names(&stats.filesystems)[5], "p/\u{1f600}");
}

#[test]
fn equal_names_keep_their_order() {
    let mut first = dataset("pool/x", "SNAPSHOT", "pool", "-", "-");
    first.createtxg = "first".to_string();
    let mut second = dataset("pool/x", "SNAPSHOT", "pool", "-", "-");
    second.createtxg = "second".to_string();
    let mut third = dataset("pool/x", "SNAPSHOT", "pool", "-", "-");
    third.createtxg = "third".to_string();
    let input = ZfsListOutput {
        output_version: OutputVersion { command: "zfs".to_string(), vers_major: 0, vers_minor: 1 },
        datasets: vec![
            ("3".to_string(), first),
            ("1".to_string(), dataset("pool/y", "SNAPSHOT", "pool", "-", "-")),
            ("2".to_string(), second),
            ("0".to_string(), dataset("pool/a", "SNAPSHOT", "pool", "-", "-")),
            ("4".to_string(), third),
        ],
    };
    let stats = aggregate(input);
    assert_eq!(names(&stats.snapshots), vec!["pool/a", "pool/x", "pool/x", "pool/x", "pool/y"]);
    let order: Vec<&str> = stats.snapshots.iter().map(|d| d.createtxg.as_str()).collect();
    assert_eq!(order, vec!["1", "first", "second", "third", "1"]);
}

#[test]
fn only_top_level_filesystems_count() {
    let stats = summary(vec![
        dataset("pool", "FILESYSTEM", "pool", "1K", "1M"),
        dataset("pool/a", "FILESYSTEM", "pool", "2K", "2M"),
        dataset("pool/a/b", "FILESYSTEM", "pool", "4K", "4M"),
        dataset("pool/a/b/c", "FILESYSTEM", "pool", "8K", "8M"),
        dataset("pool/s", "SNAPSHOT", "pool", "16K", "16M"),
        dataset("pool/m", "BOOKMARK", "pool", "32K", "32M"),
        dataset("pool/v", "VOLUME", "pool", "64K", "64M"),
    ]);
    assert_eq!(stats.total_used, "3.00K");
    assert_eq!(stats.total_available, "3.00M");
    assert_eq!(stats.filesystems.len(), 4);
}

#[test]
fn type_names_are_case_sensitive() {
    let stats = summary(vec![
        dataset("pool/a", "filesystem", "pool", "1K", "1K"),
        dataset("pool/b", "Snapshot", "pool", "1K", "1K"),
        dataset("pool/c", "BOOKMARKS", "pool", "1K", "1K"),
        dataset("pool/d", "", "pool", "1K", "1K"),
    ]);
    assert!(stats.filesystems.is_empty());
    assert!(stats.snapshots.is_empty());
    assert!(stats.bookmarks.is_empty());
    assert_eq!(stats.pools, vec!["pool"]);
}

#[test]
fn totals_stop_at_the_largest_value() {
    let stats = summary(vec![
        dataset("a", "FILESYSTEM", "a", "15E", "16E"),
        dataset("b", "FILESYSTEM", "b", "15E", "1K"),
    ]);
    assert_eq!(stats.total_used, "16.0E");
    assert_eq!(stats.total_available, "16.0E");
}

#[test]
fn records_pass_through_unchanged() {
    let mut snapshot = dataset("pool/fs@now", "SNAPSHOT", "pool", "1K", "-");
    snapshot.dataset = Some("pool/fs".to_string());
    snapshot.snapshot_name = Some("now".to_string());
    snapshot.createtxg = "4711".to_string();
    snapshot.properties.mountpoint.source.source_type = "INHERITED".to_string();
    snapshot.properties.mountpoint.source.data = "pool".to_string();
    let stats = summary(vec![snapshot]);
    let kept = &stats.snapshots[0];
    assert_eq!(kept.dataset.as_deref(), Some("pool/fs"));
    assert_eq!(kept.snapshot_name.as_deref(), Some("now"));
    assert_eq!(kept.createtxg, "4711");
    assert_eq!(kept.properties.used.value, "1K");
    assert_eq!(kept.properties.mountpoint.source.source_type, "INHERITED");
    assert_eq!(kept.properties.mountpoint.source.data, "pool");
}

#[test]
fn order_of_the_listing_does_not_matter() {
    let datasets = vec![
        dataset("tank", "FILESYSTEM", "tank", "3.5G", "100G"),
        dataset("tank/home", "FILESYSTEM", "tank", "2G", "100G"),
        dataset("tank/home/ann", "FILESYSTEM", "tank", "1G", "100G"),
        dataset("tank/home@monday", "SNAPSHOT", "tank", "12K", "-"),
        dataset("tank/home#old", "BOOKMARK", "tank", "-", "-"),
        dataset("backup", "FILESYSTEM", "backup", "700M", "1.2T"),
        dataset("backup/vol", "VOLUME", "backup", "8G", "1.2T"),
    ];
    let forward = summary(datasets.clone());
    let mut reversed = datasets.clone();
    reversed.reverse();
    let backward = summary(reversed);
    let mut rotated = datasets.clone();
    rotated.rotate_left(3);
    let turned = summary(rotated);
    for other in [&backward, &turned] {
        assert_eq!(forward.pools, other.pools);
        assert_eq!(names(&forward.filesystems), names(&other.filesystems));
        assert_eq!(names(&forward.snapshots), names(&other.snapshots));
        assert_eq!(names(&forward.bookmarks), names(&other.bookmarks));
        assert_eq!(forward.total_used, other.total_used);
        assert_eq!(forward.total_available, other.total_available);
    }
    assert_eq!(forward.pools, vec!["backup", "tank"]);
    assert_eq!(names(&forward.filesystems), vec!["backup", "tank", "tank/home", "tank/home/ann"]);
    assert_eq!(forward.total_used, "6.18G");
    assert_eq!(forward.total_available, "1.40T");
}

#[test]
fn every_dataset_is_in_one_list_at_most() {
    let stats = summary(vec![
        dataset("p/a", "FILESYSTEM", "p", "-", "-"),
        dataset("p/b", "SNAPSHOT", "p", "-", "-"),
        dataset("p/c", "BOOKMARK", "p", "-", "-"),
        dataset("p/d", "CLONE", "p", "-", "-"),
    ]);
    let mut listed = names(&stats.filesystems);
    listed.extend(names(&stats.snapshots));
    listed.extend(names(&stats.bookmarks));
    assert_eq!(listed, vec!["p/a", "p/b", "p/c"]);
}

#[test]
fn classification() {
    assert_eq!(classify("FILESYSTEM"), Some(Category::Filesystem));
    assert_eq!(classify("SNAPSHOT"), Some(Category::Snapshot));
    assert_eq!(classify("BOOKMARK"), Some(Category::Bookmark));
    assert_eq!(classify("VOLUME"), None);
    assert_eq!(classify("CLONE"), None);
    assert_eq!(classify("FILESYSTEMS"), None);
    assert_eq!(classify("FILESYSTE"), None);
    assert_eq!(classify("Filesystem"), None);
    assert_eq!(classify(""), None);
}
