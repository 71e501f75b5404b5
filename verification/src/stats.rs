//! Measurements of an operation: how long it and its steps took, and how
//! many bytes went in and came out. The record is put together by a builder
//! that refuses to build it while a field is missing.

use std::time::{Duration, Instant};
use vstd::prelude::*;
use vstd::string::StringExecFns;

verus! {

/// `Instant` of std: a moment on the clock, of which nothing is known here.
#[verifier::external_type_specification]
#[verifier::external_body]
pub struct ExInstant(Instant);

/// `Clone::clone` of std for `Duration`, which is `Copy`: the clone is the
/// duration itself.
pub assume_specification[ <Duration as Clone>::clone ](duration: &Duration) -> (copy: Duration)
    ensures
        copy == *duration,
;

/// What `Duration::from_secs` of std returns: the duration of a whole
/// number of seconds.
pub uninterp spec fn whole_seconds(seconds: u64) -> Duration;

/// Calls `Instant::now` of std. Nothing is claimed of the moment that comes
/// back.
#[verifier::external_body]
fn now() -> Instant {
    Instant::now()
}

/// Calls `Instant::elapsed` of std. Nothing is claimed of the time that has
/// passed.
#[verifier::external_body]
fn elapsed_since(start: &Instant) -> Duration {
    start.elapsed()
}

/// Calls `Duration::from_secs` of std: the duration of that many whole
/// seconds.
#[verifier::external_body]
fn seconds(count: u64) -> (duration: Duration)
    ensures
        duration == whole_seconds(count),
{
    Duration::from_secs(count)
}

/// Why a record could not be built.
#[derive(Debug, Clone, Copy, PartialEq, Eq)]
pub enum BuilderError {
    /// A field that the record needs was never set; this is its name.
    MissingField(&'static str),
}

impl BuilderError {
    /// The text of the error.
    pub fn message(&self) -> (text: String)
        ensures
            text@ == "Builder Error: Missing required field '"@ + self->0@ + "'"@,
    {
        match self {
            BuilderError::MissingField(field) => String::from_str(
                "Builder Error: Missing required field '",
            ).concat(field).concat("'"),
        }
    }
}

/// The name of a step and the time it took.
#[derive(Debug, Clone)]
pub struct SectionStats {
    /// The name of the step.
    pub name: String,
    /// The time that the step took.
    pub duration: Duration,
}

impl SectionStats {
    /// A step of the given name and duration.
    pub fn new(name: &str, duration: Duration) -> (section: Self)
        ensures
            section.name@ == name@,
            section.duration == duration,
    {
        SectionStats { name: String::from_str(name), duration }
    }
}

/// A running measurement of one step.
pub struct SubSectionTimer {
    start_time: Instant,
    section_name: String,
}

impl SubSectionTimer {
    /// The name of the step that is measured.
    pub closed spec fn name(self) -> Seq<char> {
        self.section_name@
    }

    /// Starts to measure a step of the given name.
    pub fn new(name: &str) -> (timer: Self)
        ensures
            timer.name() == name@,
    {
        SubSectionTimer { start_time: now(), section_name: String::from_str(name) }
    }

    /// Stops the measurement: the step under its name, with the time that
    /// has passed since the start.
    pub fn end(self) -> (section: SectionStats)
        ensures
            section.name@ == self.name(),
    {
        let duration = elapsed_since(&self.start_time);
        SectionStats::new(self.section_name.as_str(), duration)
    }
}

/// A running measurement of a whole operation, which collects the steps
/// that were measured on the way.
pub struct StatsTimer {
    start_time: Instant,
    sections: Vec<SectionStats>,
}

impl StatsTimer {
    /// The steps collected so far, in the order in which they were added.
    pub closed spec fn collected(self) -> Seq<SectionStats> {
        self.sections@
    }

    /// Starts to measure an operation; no step has been collected.
    pub fn new() -> (timer: Self)
        ensures
            timer.collected() == Seq::<SectionStats>::empty(),
    {
        StatsTimer { start_time: now(), sections: Vec::new() }
    }

    /// Starts to measure a step of the given name.
    pub fn start_section(&mut self, name: &str) -> (timer: SubSectionTimer)
        ensures
            timer.name() == name@,
            final(self).collected() == old(self).collected(),
    {
        SubSectionTimer::new(name)
    }

    /// Adds a step that has been measured.
    pub fn add_section(&mut self, section_stats: SectionStats)
        ensures
            final(self).collected() == old(self).collected().push(section_stats),
    {
        self.sections.push(section_stats);
    }

    /// Stops the measurement: the time that has passed since the start, and
    /// the steps that were collected.
    pub fn end(self) -> (totals: (Duration, Vec<SectionStats>))
        ensures
            totals.1@ == self.collected(),
    {
        (elapsed_since(&self.start_time), self.sections)
    }
}

/// A measurement that can be switched off: then it collects nothing.
pub struct OptinalStatsTimer(Option<StatsTimer>);

impl OptinalStatsTimer {
    /// Whether the measurement is switched on.
    pub closed spec fn enabled(self) -> bool {
        self.0.is_some()
    }

    /// The steps collected so far; none if the measurement is switched off.
    pub closed spec fn collected(self) -> Seq<SectionStats> {
        match self.0 {
            Some(timer) => timer.collected(),
            None => Seq::empty(),
        }
    }

    /// Starts a measurement that is switched on or off.
    pub fn new(enabled: bool) -> (timer: Self)
        ensures
            timer.enabled() == enabled,
            timer.collected() == Seq::<SectionStats>::empty(),
    {
        if enabled {
            OptinalStatsTimer(Some(StatsTimer::new()))
        } else {
            OptinalStatsTimer(None)
        }
    }

    /// Starts to measure a step of the given name, if the measurement is
    /// switched on.
    pub fn start_section(&mut self, name: &str) -> (timer: Option<SubSectionTimer>)
        ensures
            timer.is_some() == old(self).enabled(),
            timer.is_some() ==> timer.unwrap().name() == name@,
            final(self).enabled() == old(self).enabled(),
            final(self).collected() == old(self).collected(),
    {
        match &mut self.0 {
            Some(main_timer) => Some(main_timer.start_section(name)),
            None => None,
        }
    }

    /// Stops the measurement of a step and adds the step, if there is one
    /// and the measurement is switched on.
    pub fn add_section(&mut self, timer: Option<SubSectionTimer>)
        ensures
            final(self).enabled() == old(self).enabled(),
            timer.is_some() && old(self).enabled() ==> {
                &&& final(self).collected().len() == old(self).collected().len() + 1
                &&& final(self).collected().drop_last() == old(self).collected()
                &&& final(self).collected().last().name@ == timer.unwrap().name()
            },
            !(timer.is_some() && old(self).enabled()) ==> final(self).collected() == old(
                self,
            ).collected(),
    {
        match timer {
            Some(sub_timer) => {
                match &mut self.0 {
                    Some(main_timer) => {
                        let ghost before = main_timer.collected();
                        let section = sub_timer.end();
                        main_timer.add_section(section);
                        proof {
                            assert(before.push(section).drop_last() =~= before);
                        }
                    },
                    None => {},
                }
            },
            None => {},
        }
    }

    /// Stops the measurement: the time that has passed and the steps that
    /// were collected; no time and no steps if it is switched off.
    pub fn end(self) -> (totals: (Duration, Vec<SectionStats>))
        ensures
            totals.1@ == self.collected(),
            !self.enabled() ==> totals.0 == whole_seconds(0),
    {
        match self.0 {
            Some(timer) => timer.end(),
            None => (seconds(0), Vec::new()),
        }
    }
}

/// How the size of the data changed.
#[derive(Debug, Clone, Copy, PartialEq, Eq, Structural)]
pub enum SizeChange {
    /// The compressed data is smaller than the uncompressed data.
    Saved,
    /// The compressed data is larger than the uncompressed data.
    Wasted,
    /// Both are of the same size.
    Unchanged,
}

/// The unit in which a number of bytes is shown.
#[derive(Debug, Clone, Copy, PartialEq, Eq, Structural)]
pub enum ByteUnit {
    /// Single bytes.
    Bytes,
    /// 1024 bytes.
    KiB,
    /// 1024 KiB.
    MiB,
    /// 1024 MiB.
    GiB,
    /// 1024 GiB.
    TiB,
}

/// The bytes of one KiB.
pub const KIB: u64 = 1024;

/// The bytes of one MiB.
pub const MIB: u64 = 1024 * 1024;

/// The bytes of one GiB.
pub const GIB: u64 = 1024 * 1024 * 1024;

/// The bytes of one TiB.
pub const TIB: u64 = 1024 * 1024 * 1024 * 1024;

impl ByteUnit {
    /// The number of bytes that make one of the unit.
    pub open spec fn size(self) -> u64 {
        match self {
            ByteUnit::Bytes => 1,
            ByteUnit::KiB => KIB,
            ByteUnit::MiB => MIB,
            ByteUnit::GiB => GIB,
            ByteUnit::TiB => TIB,
        }
    }

    /// The largest unit that `bytes` fills at least once.
    pub open spec fn fitting(bytes: u64) -> ByteUnit {
        if bytes >= TIB {
            ByteUnit::TiB
        } else if bytes >= GIB {
            ByteUnit::GiB
        } else if bytes >= MIB {
            ByteUnit::MiB
        } else if bytes >= KIB {
            ByteUnit::KiB
        } else {
            ByteUnit::Bytes
        }
    }

    /// The unit in which `bytes` is shown: the largest one that it fills at
    /// least once.
    pub fn of(bytes: u64) -> (unit: ByteUnit)
        ensures
            unit == ByteUnit::fitting(bytes),
            unit.size() <= bytes || unit == ByteUnit::Bytes,
    {
        if bytes >= TIB {
            ByteUnit::TiB
        } else if bytes >= GIB {
            ByteUnit::GiB
        } else if bytes >= MIB {
            ByteUnit::MiB
        } else if bytes >= KIB {
            ByteUnit::KiB
        } else {
            ByteUnit::Bytes
        }
    }

    /// The number of bytes that make one of the unit.
    pub fn divisor(&self) -> (bytes: u64)
        ensures
            bytes == self.size(),
    {
        match self {
            ByteUnit::Bytes => 1,
            ByteUnit::KiB => KIB,
            ByteUnit::MiB => MIB,
            ByteUnit::GiB => GIB,
            ByteUnit::TiB => TIB,
        }
    }

    /// The suffix under which the unit is shown.
    pub fn suffix(&self) -> (text: &'static str)
        ensures
            text@ == (match self {
                ByteUnit::Bytes => "Bytes"@,
                ByteUnit::KiB => "KiB"@,
                ByteUnit::MiB => "MiB"@,
                ByteUnit::GiB => "GiB"@,
                ByteUnit::TiB => "TiB"@,
            }),
    {
        match self {
            ByteUnit::Bytes => "Bytes",
            ByteUnit::KiB => "KiB",
            ByteUnit::MiB => "MiB",
            ByteUnit::GiB => "GiB",
            ByteUnit::TiB => "TiB",
        }
    }
}

/// The measurements of one operation.
#[derive(Debug, Clone)]
pub struct CompressionStats {
    /// The name of the algorithm.
    pub algorithm_name: &'static str,
    /// The id of the algorithm.
    pub algorithm_id: u8,
    /// The version of the algorithm that was used.
    pub version_used: u8,
    /// The number of bytes that went in.
    pub original_len: usize,
    /// The number of bytes that came out.
    pub processed_len: usize,
    /// The time that the operation took.
    pub duration: Duration,
    /// Whether the operation compressed; else it decompressed.
    pub is_compression: bool,
    /// The steps of the operation, in order.
    pub sections: Vec<SectionStats>,
    /// The uncompressed size less the compressed size: positive if space
    /// was saved.
    pub raw_byte_difference: i128,
}

/// The size of the uncompressed data: what went into a compression or came
/// out of a decompression.
pub open spec fn uncompressed_size(
    original_len: usize,
    processed_len: usize,
    is_compression: bool,
) -> usize {
    if is_compression {
        original_len
    } else {
        processed_len
    }
}

/// The size of the compressed data: what came out of a compression or went
/// into a decompression.
pub open spec fn compressed_size(
    original_len: usize,
    processed_len: usize,
    is_compression: bool,
) -> usize {
    if is_compression {
        processed_len
    } else {
        original_len
    }
}

impl CompressionStats {
    /// The size of the uncompressed data.
    pub open spec fn uncompressed(self) -> usize {
        uncompressed_size(self.original_len, self.processed_len, self.is_compression)
    }

    /// The size of the compressed data.
    pub open spec fn compressed(self) -> usize {
        compressed_size(self.original_len, self.processed_len, self.is_compression)
    }

    /// Whether the byte difference is what the sizes say.
    pub open spec fn wf(self) -> bool {
        self.raw_byte_difference == self.uncompressed() - self.compressed()
    }

    /// Derives the record from what was measured.
    pub fn calculate_stats(
        algorithm_name: &'static str,
        algorithm_id: u8,
        version_used: u8,
        original_len: usize,
        processed_len: usize,
        duration: Duration,
        is_compression: bool,
        sections: Vec<SectionStats>,
    ) -> (stats: Self)
        ensures
            stats.algorithm_name == algorithm_name,
            stats.algorithm_id == algorithm_id,
            stats.version_used == version_used,
            stats.original_len == original_len,
            stats.processed_len == processed_len,
            stats.duration == duration,
            stats.is_compression == is_compression,
            stats.sections == sections,
            stats.wf(),
    {
        let (uncompressed_len, compressed_len) = if is_compression {
            (original_len, processed_len)
        } else {
            (processed_len, original_len)
        };
        let raw_byte_difference = uncompressed_len as i128 - compressed_len as i128;
        CompressionStats {
            algorithm_name,
            algorithm_id,
            version_used,
            original_len,
            processed_len,
            duration,
            is_compression,
            sections,
            raw_byte_difference,
        }
    }

    /// The size of the uncompressed data.
    pub fn uncompressed_len(&self) -> (len: usize)
        ensures
            len == self.uncompressed(),
    {
        if self.is_compression {
            self.original_len
        } else {
            self.processed_len
        }
    }

    /// The size of the compressed data.
    pub fn compressed_len(&self) -> (len: usize)
        ensures
            len == self.compressed(),
    {
        if self.is_compression {
            self.processed_len
        } else {
            self.original_len
        }
    }

    /// The byte difference without its sign.
    pub fn difference_bytes(&self) -> (bytes: usize)
        ensures
            self.uncompressed() >= self.compressed() ==> bytes == self.uncompressed()
                - self.compressed(),
            self.uncompressed() < self.compressed() ==> bytes == self.compressed()
                - self.uncompressed(),
    {
        let uncompressed = self.uncompressed_len();
        let compressed = self.compressed_len();
        if uncompressed >= compressed {
            uncompressed - compressed
        } else {
            compressed - uncompressed
        }
    }

    /// The terms of the compression ratio, the uncompressed size over the
    /// compressed size; `None` if nothing is left of the data, where the
    /// ratio counts as zero.
    pub fn ratio_terms(&self) -> (terms: Option<(usize, usize)>)
        ensures
            terms == if self.compressed() == 0 {
                None
            } else {
                Some((self.uncompressed(), self.compressed()))
            },
    {
        let compressed = self.compressed_len();
        if compressed == 0 {
            None
        } else {
            Some((self.uncompressed_len(), compressed))
        }
    }

    /// The terms of the change of size, the byte difference without its
    /// sign over the uncompressed size; `None` if the uncompressed data is
    /// empty, where the change counts as zero.
    pub fn change_terms(&self) -> (terms: Option<(usize, usize)>)
        ensures
            match terms {
                Some((difference, base)) => {
                    &&& base == self.uncompressed()
                    &&& base > 0
                    &&& difference == if self.uncompressed() >= self.compressed() {
                        self.uncompressed() - self.compressed()
                    } else {
                        self.compressed() - self.uncompressed()
                    }
                },
                None => self.uncompressed() == 0,
            },
    {
        let uncompressed = self.uncompressed_len();
        if uncompressed == 0 {
            None
        } else {
            Some((self.difference_bytes(), uncompressed))
        }
    }

    /// How the size changed.
    pub fn size_change(&self) -> (change: SizeChange)
        ensures
            change == if self.compressed() < self.uncompressed() {
                SizeChange::Saved
            } else if self.compressed() > self.uncompressed() {
                SizeChange::Wasted
            } else {
                SizeChange::Unchanged
            },
    {
        let uncompressed = self.uncompressed_len();
        let compressed = self.compressed_len();
        if compressed < uncompressed {
            SizeChange::Saved
        } else if compressed > uncompressed {
            SizeChange::Wasted
        } else {
            SizeChange::Unchanged
        }
    }

    /// The name of the direction of the operation.
    pub fn title(&self) -> (text: &'static str)
        ensures
            text@ == if self.is_compression {
                "Compression"@
            } else {
                "Decompression"@
            },
    {
        if self.is_compression {
            "Compression"
        } else {
            "Decompression"
        }
    }
}

/// Collects the fields of a record.
pub struct CompressionStatsBuilder {
    /// The name of the algorithm, once set.
    pub algorithm_name: Option<&'static str>,
    /// The id of the algorithm, once set.
    pub algorithm_id: Option<u8>,
    /// The version of the algorithm that was used, once set.
    pub version_used: Option<u8>,
    /// The number of bytes that went in, once set.
    pub original_len: Option<usize>,
    /// The number of bytes that came out, once set.
    pub processed_len: Option<usize>,
    /// The time that the operation took, once set.
    pub duration: Option<Duration>,
    /// Whether the operation compressed, once set.
    pub is_compression: Option<bool>,
    /// The steps of the operation; none unless some are given.
    pub sections: Vec<SectionStats>,
}

impl CompressionStatsBuilder {
    /// The name of the first field that the record needs and the builder
    /// lacks, in the order of the fields.
    pub open spec fn missing_field(self) -> Option<&'static str> {
        if self.algorithm_name.is_none() {
            Some("algorithm_name")
        } else if self.algorithm_id.is_none() {
            Some("algorithm_id")
        } else if self.version_used.is_none() {
            Some("version_used")
        } else if self.original_len.is_none() {
            Some("original_len")
        } else if self.processed_len.is_none() {
            Some("processed_len")
        } else if self.duration.is_none() {
            Some("duration")
        } else if self.is_compression.is_none() {
            Some("is_compression")
        } else {
            None
        }
    }

    /// A builder without any field.
    pub fn new() -> (builder: Self)
        ensures
            builder.algorithm_name.is_none(),
            builder.algorithm_id.is_none(),
            builder.version_used.is_none(),
            builder.original_len.is_none(),
            builder.processed_len.is_none(),
            builder.duration.is_none(),
            builder.is_compression.is_none(),
            builder.sections@.len() == 0,
    {
        CompressionStatsBuilder {
            algorithm_name: None,
            algorithm_id: None,
            version_used: None,
            original_len: None,
            processed_len: None,
            duration: None,
            is_compression: None,
            sections: Vec::new(),
        }
    }

    /// Sets the name of the algorithm.
    pub fn algorithm_name(self, name: &'static str) -> (builder: Self)
        ensures
            builder == (CompressionStatsBuilder { algorithm_name: Some(name), ..self }),
    {
        let mut builder = self;
        builder.algorithm_name = Some(name);
        builder
    }

    /// Sets the id of the algorithm.
    pub fn algorithm_id(self, id: u8) -> (builder: Self)
        ensures
            builder == (CompressionStatsBuilder { algorithm_id: Some(id), ..self }),
    {
        let mut builder = self;
        builder.algorithm_id = Some(id);
        builder
    }

    /// Sets the version of the algorithm that was used.
    pub fn version_used(self, version: u8) -> (builder: Self)
        ensures
            builder == (CompressionStatsBuilder { version_used: Some(version), ..self }),
    {
        let mut builder = self;
        builder.version_used = Some(version);
        builder
    }

    /// Sets the number of bytes that went in.
    pub fn original_len(self, len: usize) -> (builder: Self)
        ensures
            builder == (CompressionStatsBuilder { original_len: Some(len), ..self }),
    {
        let mut builder = self;
        builder.original_len = Some(len);
        builder
    }

    /// Sets the number of bytes that came out.
    pub fn processed_len(self, len: usize) -> (builder: Self)
        ensures
            builder == (CompressionStatsBuilder { processed_len: Some(len), ..self }),
    {
        let mut builder = self;
        builder.processed_len = Some(len);
        builder
    }

    /// Sets the time that the operation took.
    pub fn duration(self, duration: Duration) -> (builder: Self)
        ensures
            builder == (CompressionStatsBuilder { duration: Some(duration), ..self }),
    {
        let mut builder = self;
        builder.duration = Some(duration);
        builder
    }

    /// Sets whether the operation compressed.
    pub fn is_compression(self, is_comp: bool) -> (builder: Self)
        ensures
            builder == (CompressionStatsBuilder { is_compression: Some(is_comp), ..self }),
    {
        let mut builder = self;
        builder.is_compression = Some(is_comp);
        builder
    }

    /// Replaces the steps.
    pub fn sections(self, sections: Vec<SectionStats>) -> (builder: Self)
        ensures
            builder == (CompressionStatsBuilder { sections, ..self }),
    {
        let mut builder = self;
        builder.sections = sections;
        builder
    }

    /// Adds a step behind the steps that are there.
    pub fn add_section(self, name: &str, duration: Duration) -> (builder: Self)
        ensures
            builder.algorithm_name == self.algorithm_name,
            builder.algorithm_id == self.algorithm_id,
            builder.version_used == self.version_used,
            builder.original_len == self.original_len,
            builder.processed_len == self.processed_len,
            builder.duration == self.duration,
            builder.is_compression == self.is_compression,
            builder.sections@.len() == self.sections@.len() + 1,
            builder.sections@.drop_last() == self.sections@,
            builder.sections@.last().name@ == name@,
            builder.sections@.last().duration == duration,
    {
        let mut builder = self;
        let section = SectionStats::new(name, duration);
        builder.sections.push(section);
        proof {
            assert(builder.sections@.drop_last() =~= self.sections@);
        }
        builder
    }

    /// Builds the record, if every field that it needs has been set; else
    /// the error names the first field that is missing.
    pub fn build(self) -> (r: Result<CompressionStats, BuilderError>)
        ensures
            match self.missing_field() {
                Some(field) => r matches Err(BuilderError::MissingField(name)) && name@ == field@,
                None => {
                    &&& r matches Ok(stats)
                    &&& stats.algorithm_name == self.algorithm_name.unwrap()
                    &&& stats.algorithm_id == self.algorithm_id.unwrap()
                    &&& stats.version_used == self.version_used.unwrap()
                    &&& stats.original_len == self.original_len.unwrap()
                    &&& stats.processed_len == self.processed_len.unwrap()
                    &&& stats.duration == self.duration.unwrap()
                    &&& stats.is_compression == self.is_compression.unwrap()
                    &&& stats.sections == self.sections
                    &&& stats.wf()
                },
            },
    {
        let name = match self.algorithm_name {
            Some(name) => name,
            None => {
                return Err(BuilderError::MissingField("algorithm_name"));
            },
        };
        let id = match self.algorithm_id {
            Some(id) => id,
            None => {
                return Err(BuilderError::MissingField("algorithm_id"));
            },
        };
        let version = match self.version_used {
            Some(version) => version,
            None => {
                return Err(BuilderError::MissingField("version_used"));
            },
        };
        let original = match self.original_len {
            Some(original) => original,
            None => {
                return Err(BuilderError::MissingField("original_len"));
            },
        };
        let processed = match self.processed_len {
            Some(processed) => processed,
            None => {
                return Err(BuilderError::MissingField("processed_len"));
            },
        };
        let duration = match self.duration {
            Some(duration) => duration,
            None => {
                return Err(BuilderError::MissingField("duration"));
            },
        };
        let is_comp = match self.is_compression {
            Some(is_comp) => is_comp,
            None => {
                return Err(BuilderError::MissingField("is_compression"));
            },
        };
        Ok(
            CompressionStats::calculate_stats(
                name,
                id,
                version,
                original,
                processed,
                duration,
                is_comp,
                self.sections,
            ),
        )
    }
}

} // verus!
