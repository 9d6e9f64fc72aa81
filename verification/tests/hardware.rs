use strata::hardware::{meminfo_bytes, parse_devices, Device, Machine};

const SAMPLE: &str = "Available devices:\n  \
    ROCm0: AMD Radeon RX 7600 XT (16368 MiB, 16224 MiB free)\n  \
    ROCm1: AMD Radeon(TM) Graphics (12472 MiB, 12189 MiB free)\n";

const GIB: u64 = 1024 * 1024 * 1024;

fn machine(devices: Vec<Device>) -> Machine {
    Machine { devices, ram_total_bytes: 32 * GIB, ram_avail_bytes: 20 * GIB, cores: 12 }
}

fn device(id: &str, name: &str, total_mib: u64) -> Device {
    Device { id: id.to_string(), name: name.to_string(), total_mib, free_mib: total_mib }
}

#[test]
fn parses_the_runtime_device_list() {
    let d = parse_devices(SAMPLE);
    assert_eq!(d.len(), 2);
    assert_eq!(d[0].id, "ROCm0");
    assert_eq!(d[0].name, "AMD Radeon RX 7600 XT");
    assert_eq!(d[0].total_mib, 16368);
    assert_eq!(d[0].free_mib, 16224);
}

#[test]
fn prefers_the_discrete_card_over_the_apu() {
    // The integrated device reports 12 GB of borrowed system memory; using it
    // as a VRAM budget would double-count against the host.
    let m = machine(parse_devices(SAMPLE));
    assert_eq!(m.primary().unwrap().name, "AMD Radeon RX 7600 XT");
}

#[test]
fn falls_back_to_an_apu_when_that_is_all_there_is() {
    let only_igpu = "  Vulkan0: AMD Radeon(TM) Graphics (12472 MiB, 12189 MiB free)";
    let m = machine(parse_devices(only_igpu));
    assert_eq!(m.primary().unwrap().total_mib, 12472);
}

#[test]
fn ignores_lines_it_does_not_understand() {
    assert!(parse_devices("Available devices:\n  none\n").is_empty());
    assert!(parse_devices("ggml_cuda_init: found 1 device\n").is_empty());
    // A changed format must yield nothing rather than a plausible number.
    assert!(parse_devices("  ROCm0: Some Card [16368 MB]").is_empty());
}

#[test]
fn ram_budget_holds_back_room_for_the_system() {
    assert_eq!(machine(vec![]).ram_budget_bytes() as f32 / GIB as f32, 16.0);
    let tight = Machine { ram_avail_bytes: 2 * GIB, ..machine(vec![]) };
    assert_eq!(tight.ram_budget_bytes() as f32 / GIB as f32, 0.0);
}

#[test]
fn the_budget_is_that_of_single_precision() {
    for avail in [0u64, 1, 4 * GIB, 4 * GIB + 1, 20_401_094_656, 33_285_996_544, u64::MAX] {
        let m = Machine { ram_avail_bytes: avail, ..machine(vec![]) };
        let gb = avail as f32 / GIB as f32;
        let want = (gb - 4.0).max(0.0) as f64 * GIB as f64;
        assert_eq!(m.ram_budget_bytes(), want as u128, "{avail}");
    }
}

#[test]
fn of_equal_cards_the_last_is_taken() {
    let m = machine(vec![device("A", "Card", 8192), device("B", "Card", 8192)]);
    assert_eq!(m.primary().unwrap().id, "B");
    let m = machine(vec![device("A", "Card", 8193), device("B", "Card", 8192)]);
    assert_eq!(m.primary().unwrap().id, "A");
    assert!(machine(vec![]).primary().is_none());
}

#[test]
fn a_small_discrete_card_beats_a_large_integrated_one() {
    let m = machine(vec![device("A", "Intel UHD Graphics", 32768), device("B", "RX 6400", 4096)]);
    assert_eq!(m.primary().unwrap().id, "B");
}

#[test]
fn integrated_devices_are_told_by_their_names() {
    for name in ["AMD Radeon(TM) Graphics", "Integrated thing", "some iGPU", "Intel UHD GRAPHICS"] {
        assert!(device("A", name, 1).looks_integrated(), "{name}");
    }
    for name in ["Graphics Card", "RTX 4090", "UHDGraphics"] {
        assert!(!device("A", name, 1).looks_integrated(), "{name}");
    }
}

#[test]
fn what_is_wrong_with_a_line_drops_it() {
    // No id, an id of two words, one size, no name, no memory.
    assert!(parse_devices(": Card (1 MiB, 1 MiB free)").is_empty());
    assert!(parse_devices("a b: Card (1 MiB, 1 MiB free)").is_empty());
    assert!(parse_devices("A: Card (1 MiB)").is_empty());
    assert!(parse_devices("A: (1 MiB, 1 MiB free)").is_empty());
    assert!(parse_devices("A: Card (0 MiB, 0 MiB free)").is_empty());
    assert!(parse_devices("A: Card 1 MiB, 1 MiB free").is_empty());
    // Other units, other words, other signs and other blanks are another shape.
    assert!(parse_devices("  ROCm0: Some Card (16 GiB, 15 GiB free)").is_empty());
    assert!(parse_devices("A: Card (16 MiB, 15 GiB free)").is_empty());
    assert!(parse_devices("A: Card (16 MiB, 15 MiB)").is_empty());
    assert!(parse_devices("A: Card (16 MiB, 15 MiB used)").is_empty());
    assert!(parse_devices("A: Card (16, 15)").is_empty());
    assert!(parse_devices("A: Card (16 MiB, 15 MiB free) x").is_empty());
    assert!(parse_devices("A: Card (about, 12 MiB, none, 11 MiB free)").is_empty());
    assert!(parse_devices("A: Card (+16 MiB, 15 MiB free)").is_empty());
    assert!(parse_devices("A: Card (16 MiB, +15 MiB free)").is_empty());
    assert!(parse_devices("A: Card (16  MiB, 15 MiB free)").is_empty());
    assert!(parse_devices("A: Card (16 MiB,15 MiB free)").is_empty());
    assert!(parse_devices("A: Card ( MiB,  MiB free)").is_empty());
    // A name may hold brackets.
    let d = parse_devices("A: Card (x) (12 MiB, 11 MiB free)");
    assert_eq!(d.len(), 1);
    assert_eq!(d[0].name, "Card (x)");
    assert_eq!((d[0].total_mib, d[0].free_mib), (12, 11));
    // A number that does not fit is no number.
    assert!(parse_devices("A: Card (18446744073709551616 MiB, 1 MiB free)").is_empty());
    let d = parse_devices("A: Card (18446744073709551615 MiB, 7 MiB free)\r\n");
    assert_eq!((d[0].total_mib, d[0].free_mib), (u64::MAX, 7));
}

#[test]
fn memory_is_read_by_its_key() {
    let listing = "MemTotal:       32505856 kB\nMemFree: 1 kB\nMemAvailable:   20971520 kB\n";
    assert_eq!(meminfo_bytes(listing, "MemTotal:"), 32505856 * 1024);
    assert_eq!(meminfo_bytes(listing, "MemAvailable:"), 20 * GIB);
    assert_eq!(meminfo_bytes(listing, "SwapTotal:"), 0);
    assert_eq!(meminfo_bytes("MemTotal: lots\n", "MemTotal:"), 0);
}
