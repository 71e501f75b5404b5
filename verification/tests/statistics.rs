use purgepack::stats::{
    BuilderError, ByteUnit, CompressionStats, CompressionStatsBuilder, OptinalStatsTimer,
    SectionStats, SizeChange, StatsTimer, SubSectionTimer,
};
use std::time::Duration;

fn complete() -> CompressionStatsBuilder {
    CompressionStatsBuilder::new()
        .algorithm_name("Huffman")
        .algorithm_id(2)
        .version_used(1)
        .original_len(372054)
        .processed_len(3648)
        .duration(Duration::from_millis(250))
        .is_compression(true)
}

#[test]
fn builder_with_all_fields_builds_the_record() {
    let stats = complete().add_section("read", Duration::from_millis(3)).build().unwrap();
    assert_eq!(stats.algorithm_name, "Huffman");
    assert_eq!(stats.algorithm_id, 2);
    assert_eq!(stats.version_used, 1);
    assert_eq!(stats.original_len, 372054);
    assert_eq!(stats.processed_len, 3648);
    assert_eq!(stats.duration, Duration::from_millis(250));
    assert!(stats.is_compression);
    assert_eq!(stats.sections.len(), 1);
    assert_eq!(stats.sections[0].name, "read");
    assert_eq!(stats.sections[0].duration, Duration::from_millis(3));
    assert_eq!(stats.raw_byte_difference, 368406);
    assert_eq!(stats.uncompressed_len(), 372054);
    assert_eq!(stats.compressed_len(), 3648);
    assert_eq!(stats.difference_bytes(), 368406);
    assert_eq!(stats.size_change(), SizeChange::Saved);
    assert_eq!(stats.title(), "Compression");
}

#[test]
fn derived_quantities_follow_their_definitions() {
    let stats = complete().build().unwrap();
    assert_eq!(stats.ratio_terms(), Some((372054, 3648)));
    assert_eq!(stats.change_terms(), Some((368406, 372054)));
    let ratio = stats.uncompressed_len() as f64 / stats.compressed_len() as f64;
    assert!((ratio - 101.988).abs() < 0.001);
    let percent = stats.difference_bytes() as f64 / stats.uncompressed_len() as f64 * 100.0;
    assert!((percent - 99.02).abs() < 0.01);
    let speed = (stats.uncompressed_len() as f64 / (1024.0 * 1024.0)) / 0.25;
    assert!((speed - 1.4193).abs() < 0.001);
}

#[test]
fn decompression_swaps_the_sizes() {
    let stats = CompressionStatsBuilder::new()
        .algorithm_name("Run Length Encoding")
        .algorithm_id(3)
        .version_used(1)
        .original_len(10)
        .processed_len(4000)
        .duration(Duration::from_secs(1))
        .is_compression(false)
        .build()
        .unwrap();
    assert_eq!(stats.uncompressed_len(), 4000);
    assert_eq!(stats.compressed_len(), 10);
    assert_eq!(stats.raw_byte_difference, 3990);
    assert_eq!(stats.size_change(), SizeChange::Saved);
    assert_eq!(stats.title(), "Decompression");
}

#[test]
fn bloat_has_a_negative_difference() {
    let stats = CompressionStats::calculate_stats(
        "Run Length Encoding",
        3,
        1,
        5,
        10,
        Duration::from_secs(0),
        true,
        Vec::new(),
    );
    assert_eq!(stats.raw_byte_difference, -5);
    assert_eq!(stats.difference_bytes(), 5);
    assert_eq!(stats.size_change(), SizeChange::Wasted);
    let none = Duration::from_secs(0);
    let same = CompressionStats::calculate_stats("x", 1, 1, 7, 7, none, true, vec![]);
    assert_eq!(same.raw_byte_difference, 0);
    assert_eq!(same.size_change(), SizeChange::Unchanged);
    let nothing = CompressionStats::calculate_stats("x", 1, 1, 0, 0, none, true, vec![]);
    assert_eq!(nothing.ratio_terms(), None);
    assert_eq!(nothing.change_terms(), None);
    let vanished = CompressionStats::calculate_stats("x", 1, 1, 9, 0, none, true, vec![]);
    assert_eq!(vanished.ratio_terms(), None);
    assert_eq!(vanished.change_terms(), Some((9, 9)));
    let grown = CompressionStats::calculate_stats("x", 1, 1, 9, 0, none, false, vec![]);
    assert_eq!(grown.ratio_terms(), Some((0, 9)));
    assert_eq!(grown.change_terms(), None);
}

fn missing(builder: CompressionStatsBuilder) -> &'static str {
    match builder.build() {
        Err(BuilderError::MissingField(name)) => name,
        Ok(_) => panic!("the record was built"),
    }
}

#[test]
fn builder_names_the_first_missing_field() {
    let time = Duration::from_secs(1);
    assert_eq!(missing(CompressionStatsBuilder::new()), "algorithm_name");
    let builder = CompressionStatsBuilder::new().algorithm_name("a");
    assert_eq!(missing(builder), "algorithm_id");
    let builder = CompressionStatsBuilder::new().algorithm_name("a").algorithm_id(1);
    assert_eq!(missing(builder), "version_used");
    let builder =
        CompressionStatsBuilder::new().algorithm_name("a").algorithm_id(1).version_used(1);
    assert_eq!(missing(builder), "original_len");
    let builder = CompressionStatsBuilder::new()
        .algorithm_name("a")
        .algorithm_id(1)
        .version_used(1)
        .original_len(1);
    assert_eq!(missing(builder), "processed_len");
    let builder = CompressionStatsBuilder::new()
        .algorithm_name("a")
        .algorithm_id(1)
        .version_used(1)
        .original_len(1)
        .processed_len(1);
    assert_eq!(missing(builder), "duration");
    let builder = CompressionStatsBuilder::new()
        .algorithm_name("a")
        .algorithm_id(1)
        .version_used(1)
        .original_len(1)
        .processed_len(1)
        .duration(time);
    assert_eq!(missing(builder), "is_compression");
    let builder = CompressionStatsBuilder::new()
        .algorithm_id(1)
        .version_used(1)
        .original_len(1)
        .processed_len(1)
        .duration(time)
        .is_compression(true);
    assert_eq!(missing(builder), "algorithm_name");
    let builder = CompressionStatsBuilder::new()
        .algorithm_name("a")
        .algorithm_id(1)
        .version_used(1)
        .processed_len(1)
        .duration(time)
        .is_compression(true);
    assert_eq!(missing(builder), "original_len");
}

#[test]
fn builder_error_text() {
    assert_eq!(
        BuilderError::MissingField("duration").message(),
        "Builder Error: Missing required field 'duration'"
    );
}

#[test]
fn sections_can_be_set_and_added() {
    let first = SectionStats::new("first", Duration::from_micros(1500));
    assert_eq!(first.name, "first");
    assert_eq!(first.duration, Duration::from_micros(1500));
    let stats = complete()
        .add_section("dropped", Duration::from_secs(9))
        .sections(vec![first])
        .add_section("second", Duration::from_secs(2))
        .build()
        .unwrap();
    let names: Vec<&str> = stats.sections.iter().map(|s| s.name.as_str()).collect();
    assert_eq!(names, vec!["first", "second"]);
    assert_eq!(stats.sections[1].duration, Duration::from_secs(2));
}

#[test]
fn timers_collect_sections_in_order() {
    let mut timer = StatsTimer::new();
    let step = timer.start_section("load");
    timer.add_section(step.end());
    timer.add_section(SubSectionTimer::new("pack").end());
    timer.add_section(SectionStats::new("given", Duration::from_secs(3)));
    let (_, sections) = timer.end();
    let names: Vec<&str> = sections.iter().map(|s| s.name.as_str()).collect();
    assert_eq!(names, vec!["load", "pack", "given"]);
    assert_eq!(sections[2].duration, Duration::from_secs(3));
}

#[test]
fn optional_timer_switched_on_collects() {
    let mut timer = OptinalStatsTimer::new(true);
    let step = timer.start_section("prepare");
    assert!(step.is_some());
    timer.add_section(step);
    timer.add_section(None);
    let (_, sections) = timer.end();
    assert_eq!(sections.len(), 1);
    assert_eq!(sections[0].name, "prepare");
}

#[test]
fn optional_timer_switched_off_collects_nothing() {
    let mut timer = OptinalStatsTimer::new(false);
    let step = timer.start_section("prepare");
    assert!(step.is_none());
    timer.add_section(step);
    timer.add_section(Some(SubSectionTimer::new("stray")));
    let (duration, sections) = timer.end();
    assert_eq!(duration, Duration::from_secs(0));
    assert!(sections.is_empty());
}

#[test]
fn byte_units_change_at_powers_of_1024() {
    assert_eq!(ByteUnit::of(0), ByteUnit::Bytes);
    assert_eq!(ByteUnit::of(512), ByteUnit::Bytes);
    assert_eq!(ByteUnit::of(1023), ByteUnit::Bytes);
    assert_eq!(ByteUnit::of(1024), ByteUnit::KiB);
    assert_eq!(ByteUnit::of(1572864), ByteUnit::MiB);
    assert_eq!(ByteUnit::of(1048575), ByteUnit::KiB);
    assert_eq!(ByteUnit::of(3 * 1024 * 1024 * 1024), ByteUnit::GiB);
    assert_eq!(ByteUnit::of(5 * 1024 * 1024 * 1024 * 1024), ByteUnit::TiB);
    assert_eq!(ByteUnit::of(u64::MAX), ByteUnit::TiB);
    assert_eq!(ByteUnit::MiB.divisor(), 1048576);
    assert_eq!(ByteUnit::Bytes.divisor(), 1);
    assert_eq!(ByteUnit::TiB.divisor(), 1099511627776);
    assert_eq!(ByteUnit::KiB.suffix(), "KiB");
    assert_eq!(ByteUnit::Bytes.suffix(), "Bytes");
    assert_eq!(1572864f64 / ByteUnit::of(1572864).divisor() as f64, 1.5);
}
