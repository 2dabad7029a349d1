use kata_device_plugin::cli::parse_naming;
use kata_device_plugin::labels::LABEL_GPU_CLIQUE;
use kata_device_plugin::reconcile::names_to_start;
use kata_device_plugin::text::{chars_of, compare_chars, str_eq, Order};
use kata_device_plugin::vfio::{
    advertised_resource_name, discover, find_resource, resources, sanitize, sku_name,
    sku_name_with, sku_segment, IommufdDev, Naming, Resource, ResourceMap,
};

/// A cdev as IOMMUFD enumeration reports it.
fn add(n: u32, vendor: u16, device: u16, class: u32) -> IommufdDev {
    IommufdDev {
        num: n,
        path: format!("/dev/vfio/devices/vfio{n}"),
        vendor,
        device,
        class,
    }
}

/// An H100 SXM5 80GB: pci-ids 10de:2330, so SKU naming is exercised
/// against the real database.
fn add_gpu(n: u32) -> IommufdDev {
    add(n, 0x10de, 0x2330, 0x030200)
}

fn add_nvswitch(n: u32) -> IommufdDev {
    add(n, 0x10de, 0x22a3, 0x068000)
}

fn nums(devs: &[IommufdDev]) -> Vec<u32> {
    devs.iter().map(|d| d.num).collect()
}

fn names(map: &ResourceMap) -> Vec<String> {
    map.entries().iter().map(|e| e.name.clone()).collect()
}

#[test]
fn alias_mode_classifies_and_sorts() {
    // Enumeration order is numeric cdev order; a VFIO-bound NIC must not be
    // advertised under any resource.
    let devs = vec![
        add(3, 0x15b3, 0x101e, 0x020000),
        add_gpu(7),
        add_nvswitch(9),
        add_gpu(42),
    ];
    let map = discover(devs, Naming::Alias);
    assert_eq!(map.len(), 2);
    assert_eq!(nums(map.get("nvidia.com/gpu").unwrap()), vec![7, 42]);
    assert!(map.get("nvidia.com/gpu").unwrap()[0].path.ends_with("devices/vfio7"));
    assert_eq!(nums(map.get("nvidia.com/nvswitch").unwrap()), vec![9]);
}

#[test]
fn sku_mode_names_from_pci_ids() {
    let map = discover(vec![add_gpu(0), add_gpu(1)], Naming::Sku);
    assert_eq!(map.len(), 1);
    let first = &map.entries()[0];
    let (name, devs) = (&first.name, &first.devices);
    // Loose on the marketing suffix: the database may reword it, but the
    // die name and domain are stable.
    assert!(
        name.starts_with("nvidia.com/GH100"),
        "unexpected SKU name: {name}"
    );
    assert!(!name.contains(['[', ']', ' ']), "unsanitized: {name}");
    assert_eq!(nums(devs), vec![0, 1]);
}

#[test]
fn sku_mode_unknown_device_falls_back_to_row_name() {
    let map = discover(vec![add(0, 0x10de, 0xdead, 0x030200)], Naming::Sku);
    assert_eq!(map.len(), 1);
    assert!(map.contains_key("nvidia.com/gpu"));
}

#[test]
fn curated_alias_row_wins_over_class_fallback() {
    // A hypothetical curated row for the H100 placed above the generic
    // GPU row must capture exactly the matching device id.
    const CURATED: &[Resource] = &[
        Resource {
            name: "nvidia.com/h100",
            vendor: 0x10de,
            device: Some(0x2330),
            class_prefix: 0x0302,
        },
        Resource {
            name: "nvidia.com/gpu",
            vendor: 0x10de,
            device: None,
            class_prefix: 0x0302,
        },
    ];
    let dev_h100 = IommufdDev {
        num: 0,
        path: "/dev/vfio/devices/vfio0".into(),
        vendor: 0x10de,
        device: 0x2330,
        class: 0x030200,
    };
    let dev_other = IommufdDev {
        device: 0x1234,
        ..dev_h100.clone()
    };
    let pick = |dev: &IommufdDev| find_resource(CURATED, dev).unwrap().name;
    assert_eq!(pick(&dev_h100), "nvidia.com/h100");
    assert_eq!(pick(&dev_other), "nvidia.com/gpu");
}

#[test]
fn missing_sysfs_entry_is_not_advertised() {
    // A cdev without a sysfs identity is not enumerated, so nothing is left
    // to advertise in either naming mode.
    for naming in [Naming::Alias, Naming::Sku] {
        assert!(discover(Vec::new(), naming).is_empty());
    }
}

#[test]
fn missing_devices_dir_is_empty() {
    assert!(discover(Vec::new(), Naming::Alias).is_empty());
}

#[test]
fn sku_segment_rejects_degenerate_names() {
    assert_eq!(sku_segment("###"), None);
    assert_eq!(sku_segment("  "), None);
    assert_eq!(sku_segment("._x_."), Some("X".to_owned()));
    // 63-char cap, no trailing underscore left by the cut.
    let long = format!("{}_TAIL", "A".repeat(62));
    assert_eq!(sku_segment(&long), Some("A".repeat(62)));
}

#[test]
fn sanitize_matches_kubevirt_convention() {
    assert_eq!(sanitize("GH100 [H100 SXM5 80GB]"), "GH100_H100_SXM5_80GB");
    assert_eq!(sanitize("GB100 [HGX GB200]"), "GB100_HGX_GB200");
    assert_eq!(sanitize("a/b.c  d"), "A_B_C_D");
    assert_eq!(sanitize("  trimmed  "), "TRIMMED");
}

#[test]
fn naming_parses_only_the_two_modes() {
    assert!(matches!(Naming::parse("alias"), Ok(Naming::Alias)));
    assert!(matches!(Naming::parse("sku"), Ok(Naming::Sku)));
    assert!(Naming::parse("SKU").is_err());
    assert!(Naming::parse("").is_err());
}

#[test]
fn naming_error_quotes_the_rejected_value() {
    assert_eq!(
        Naming::parse("SKU").unwrap_err(),
        "--resource-naming must be alias or sku, got \"SKU\""
    );
    assert_eq!(
        Naming::parse("a\"b").unwrap_err(),
        "--resource-naming must be alias or sku, got \"a\\\"b\""
    );
}

#[test]
fn resource_table_rows() {
    let rows = resources();
    assert_eq!(rows.len(), 2);
    assert_eq!(rows[0].name, "nvidia.com/gpu");
    assert_eq!((rows[0].vendor, rows[0].device, rows[0].class_prefix), (0x10de, None, 0x0302));
    assert_eq!(rows[1].name, "nvidia.com/nvswitch");
    assert_eq!((rows[1].vendor, rows[1].device, rows[1].class_prefix), (0x10de, None, 0x0680));
}

#[test]
fn class_prefix_is_base_class_and_subclass() {
    assert_eq!(add_gpu(0).class_prefix(), 0x0302);
    assert_eq!(add_nvswitch(0).class_prefix(), 0x0680);
    assert_eq!(add(0, 1, 1, 0x12ab34).class_prefix(), 0x12ab);
}

#[test]
fn sku_name_from_pci_database() {
    let rows = resources();
    assert_eq!(sku_name(&rows[0], &add_gpu(0)), "nvidia.com/GH100_H100_SXM5_80GB");
    assert_eq!(sku_name(&rows[0], &add(0, 0x10de, 0xdead, 0x030200)), "nvidia.com/gpu");
    assert_eq!(
        advertised_resource_name(&rows[0], &add_gpu(0), Naming::Alias),
        "nvidia.com/gpu"
    );
}

#[test]
fn sku_name_falls_back_when_nothing_survives() {
    let rows = resources();
    assert_eq!(sku_name_with(&rows[1], None), "nvidia.com/nvswitch");
    assert_eq!(sku_name_with(&rows[1], Some("[ ]")), "nvidia.com/nvswitch");
    assert_eq!(sku_name_with(&rows[1], Some("GH100 [x]")), "nvidia.com/GH100_X");
    let bare = Resource { name: "plain", vendor: 0, device: None, class_prefix: 0 };
    assert_eq!(sku_name_with(&bare, Some("ab")), "plain/AB");
}

#[test]
fn sanitize_edge_cases() {
    assert_eq!(sanitize(""), "");
    assert_eq!(sanitize("\t\u{3000}x\u{a0}\u{2003}y\n"), "X_Y");
    assert_eq!(sanitize("é-ß+1"), "1");
    assert_eq!(sanitize("__a__"), "__A__");
    // Sanitizing twice changes nothing.
    let once = sanitize(" GH100 [H100 SXM5 80GB]/rev.a ");
    assert_eq!(sanitize(&once), once);
}

#[test]
fn sku_segment_is_a_valid_name_part() {
    let seg = sku_segment(&"b ".repeat(80)).unwrap();
    assert_eq!(seg.len(), 63);
    assert!(seg.starts_with('B') && seg.ends_with('B'));
    assert_eq!(sku_segment("_a_"), Some("A".to_owned()));
    assert_eq!(sku_segment("é"), None);
}

#[test]
fn every_device_lands_in_exactly_one_resource() {
    let devs = vec![add_gpu(1), add_nvswitch(2), add(3, 0x8086, 1, 0x030200), add_gpu(4)];
    let map = discover(devs, Naming::Alias);
    assert_eq!(names(&map), vec!["nvidia.com/gpu", "nvidia.com/nvswitch"]);
    let all: Vec<u32> = map.entries().iter().flat_map(|e| nums(&e.devices)).collect();
    assert_eq!(all, vec![1, 4, 2]);
    assert!(map.get("nvidia.com/missing").is_none());
}

#[test]
fn names_are_kept_in_ascending_order() {
    let devs = vec![add_nvswitch(0), add(1, 0x10de, 0x2330, 0x030200), add(2, 0x10de, 0x20b0, 0x030200)];
    let map = discover(devs, Naming::Sku);
    let keys = names(&map);
    let mut sorted = keys.clone();
    sorted.sort();
    assert_eq!(keys, sorted);
    assert_eq!(map.len(), 3);
    assert_eq!(map.into_keys(), keys);
}

#[test]
fn string_comparisons() {
    let a = chars_of("nvidia.com/gpu");
    let b = chars_of("nvidia.com/nvswitch");
    assert_eq!(compare_chars(&a, &b), Order::Less);
    assert_eq!(compare_chars(&b, &a), Order::Greater);
    assert_eq!(compare_chars(&a, &a), Order::Equal);
    assert_eq!(compare_chars(&chars_of("ab"), &chars_of("abc")), Order::Less);
    assert!(str_eq("sku", "sku"));
    assert!(!str_eq("sku", "sk"));
}

#[test]
fn clique_label_name() {
    assert_eq!(LABEL_GPU_CLIQUE, "nvidia.com/gpu.clique");
}

fn args(v: &[&str]) -> Vec<String> {
    v.iter().map(|s| s.to_string()).collect()
}

#[test]
fn naming_flag_parsing() {
    assert!(matches!(parse_naming(&args(&[])), Ok(Naming::Alias)));
    assert!(matches!(parse_naming(&args(&["--resource-naming=sku"])), Ok(Naming::Sku)));
    assert!(matches!(parse_naming(&args(&["--resource-naming= sku "])), Ok(Naming::Sku)));
    assert!(matches!(
        parse_naming(&args(&["--resource-naming=sku", "--resource-naming=alias"])),
        Ok(Naming::Alias)
    ));
    assert_eq!(
        parse_naming(&args(&["--verbose"])).unwrap_err(),
        "usage: kata-device-plugin [--resource-naming=alias|sku]"
    );
    assert_eq!(
        parse_naming(&args(&["--resource-naming=gpu"])).unwrap_err(),
        "--resource-naming must be alias or sku, got \"gpu\""
    );
    assert_eq!(
        parse_naming(&args(&["--resource-naming", "sku"])).unwrap_err(),
        "usage: kata-device-plugin [--resource-naming=alias|sku]"
    );
}

#[test]
fn alias_rows_are_always_desired() {
    let none = discover(Vec::new(), Naming::Alias);
    assert_eq!(
        names_to_start(none, Naming::Alias, &Vec::new()),
        vec!["nvidia.com/gpu", "nvidia.com/nvswitch"]
    );
    let gpus = discover(vec![add_gpu(0)], Naming::Alias);
    assert_eq!(
        names_to_start(gpus, Naming::Alias, &args(&["nvidia.com/nvswitch"])),
        vec!["nvidia.com/gpu"]
    );
}

#[test]
fn sku_names_start_only_once_discovered() {
    assert!(names_to_start(discover(Vec::new(), Naming::Sku), Naming::Sku, &Vec::new()).is_empty());
    let map = discover(vec![add_gpu(0), add(1, 0x10de, 0xdead, 0x030200)], Naming::Sku);
    assert_eq!(
        names_to_start(map, Naming::Sku, &args(&["nvidia.com/gpu"])),
        vec!["nvidia.com/GH100_H100_SXM5_80GB"]
    );
}
