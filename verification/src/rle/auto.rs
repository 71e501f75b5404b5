//! Picks a run-length format for a file from samples of its content.

use crate::rle::cli_parse::Version;
use crate::rle::codec::{compress_v1, compress_v2, rle_v1, rle_v2};
use rand::rngs::StdRng;
use rand::Rng;
use rand::SeedableRng;
use vstd::prelude::*;
use vstd::slice::slice_subrange;

verus! {

/// The length of one sample.
pub const CHUNK_SIZE_BYTES: usize = 1024;

/// The number of samples taken from a file that is longer than one sample.
/// It is odd, so that the two formats seldom tie.
pub const NUM_CHUNKS: usize = 5;

/// `StdRng` of the rand crate: a generator of pseudo-random numbers, of
/// whose state nothing is known here.
#[verifier::external_type_specification]
#[verifier::external_body]
pub struct ExStdRng(StdRng);

/// Calls `SeedableRng::seed_from_u64` of the rand crate for `StdRng`.
/// Nothing is claimed of the generator that comes back.
#[verifier::external_body]
fn seeded_generator(seed: u64) -> StdRng {
    StdRng::seed_from_u64(seed)
}

/// Calls `Rng::random_range` of the rand crate on `0..=max_start_offset`.
/// That range is never empty, so the call returns, and what it returns lies
/// in the range; nothing else is claimed of it.
#[verifier::external_body]
fn random_offset(generator: &mut StdRng, max_start_offset: u64) -> (offset: u64)
    ensures
        offset <= max_start_offset,
{
    generator.random_range(0..=max_start_offset)
}

/// The content of a list of chunks.
pub open spec fn views(chunks: Seq<Vec<u8>>) -> Seq<Seq<u8>> {
    Seq::new(chunks.len(), |i: int| chunks[i]@)
}

/// Whether the pair format compresses `chunk` to strictly fewer bytes.
pub open spec fn v1_shorter(chunk: Seq<u8>) -> bool {
    rle_v1(chunk).len() < rle_v2(chunk).len()
}

/// Whether the hybrid format compresses `chunk` to strictly fewer bytes.
pub open spec fn v2_shorter(chunk: Seq<u8>) -> bool {
    rle_v2(chunk).len() < rle_v1(chunk).len()
}

/// The number of chunks on which the pair format wins.
pub open spec fn score_v1(chunks: Seq<Seq<u8>>) -> nat
    decreases chunks.len(),
{
    if chunks.len() == 0 {
        0
    } else {
        score_v1(chunks.drop_last()) + if v1_shorter(chunks.last()) {
            1nat
        } else {
            0nat
        }
    }
}

/// The number of chunks on which the hybrid format wins.
pub open spec fn score_v2(chunks: Seq<Seq<u8>>) -> nat
    decreases chunks.len(),
{
    if chunks.len() == 0 {
        0
    } else {
        score_v2(chunks.drop_last()) + if v2_shorter(chunks.last()) {
            1nat
        } else {
            0nat
        }
    }
}

/// The format chosen for a list of samples: the hybrid format if it wins on
/// strictly more samples, the pair format otherwise.
pub open spec fn auto_choice(chunks: Seq<Seq<u8>>) -> Version {
    if score_v2(chunks) > score_v1(chunks) {
        Version::Two
    } else {
        Version::One
    }
}

/// Whether `chunk` is a full-length sample of `data`.
pub open spec fn is_sample_of(chunk: Seq<u8>, data: Seq<u8>) -> bool {
    exists|offset: int|
        0 <= offset <= data.len() - CHUNK_SIZE_BYTES && chunk == #[trigger] data.subrange(
            offset,
            offset + CHUNK_SIZE_BYTES,
        )
}

/// Whether `chunks` is a sampling of `data`: nothing for empty data, the
/// whole of it if it is no longer than one sample, and `NUM_CHUNKS`
/// full-length samples otherwise.
pub open spec fn valid_samples(chunks: Seq<Seq<u8>>, data: Seq<u8>) -> bool {
    if data.len() == 0 {
        chunks.len() == 0
    } else if data.len() <= CHUNK_SIZE_BYTES {
        chunks == seq![data]
    } else {
        &&& chunks.len() == NUM_CHUNKS
        &&& forall|i: int| 0 <= i < chunks.len() ==> is_sample_of(#[trigger] chunks[i], data)
    }
}

/// Neither score exceeds the number of chunks.
pub proof fn lemma_scores_bounded(chunks: Seq<Seq<u8>>)
    ensures
        score_v1(chunks) + score_v2(chunks) <= chunks.len(),
    decreases chunks.len(),
{
    if chunks.len() > 0 {
        lemma_scores_bounded(chunks.drop_last());
    }
}

/// Chooses the format that compresses more of the chunks to fewer bytes; the
/// pair format on a tie. Empty chunks count for neither.
pub fn auto_choice_from_chunks(chunks: &Vec<Vec<u8>>) -> (version: Version)
    ensures
        version == auto_choice(views(chunks@)),
        version != Version::Auto,
{
    let mut version1_score: usize = 0;
    let mut version2_score: usize = 0;
    let ghost all = views(chunks@);
    let mut i: usize = 0;
    while i < chunks.len()
        invariant
            0 <= i <= chunks.len(),
            all == views(chunks@),
            version1_score == score_v1(all.take(i as int)),
            version2_score == score_v2(all.take(i as int)),
        decreases chunks.len() - i,
    {
        proof {
            lemma_scores_bounded(all.take(i as int));
            assert(all.take(i + 1).drop_last() =~= all.take(i as int));
            assert(all.take(i + 1).last() == chunks@[i as int]@);
        }
        let compressed_data_v1 = compress_v1(chunks[i].as_slice());
        let compressed_data_v2 = compress_v2(chunks[i].as_slice());
        if compressed_data_v2.len() < compressed_data_v1.len() {
            version2_score += 1;
        } else if compressed_data_v1.len() < compressed_data_v2.len() {
            version1_score += 1;
        }
        i += 1;
    }
    proof {
        assert(all.take(chunks.len() as int) =~= all);
    }
    if version2_score > version1_score {
        Version::Two
    } else {
        Version::One
    }
}

/// Copies `data` into a vector.
fn copy_of(data: &[u8]) -> (copy: Vec<u8>)
    ensures
        copy@ == data@,
{
    let mut copy: Vec<u8> = Vec::new();
    copy.extend_from_slice(data);
    copy
}

/// Takes the samples of `data` on which the format is chosen: the whole of
/// it if it is no longer than `CHUNK_SIZE_BYTES`, and otherwise `NUM_CHUNKS`
/// stretches of that length at offsets drawn from a generator that is seeded
/// with the length of the data. Samples may overlap.
pub fn read_multiple_random_chunks(data: &[u8]) -> (chunks: Vec<Vec<u8>>)
    ensures
        valid_samples(views(chunks@), data@),
{
    let mut chunks: Vec<Vec<u8>> = Vec::new();
    if data.len() == 0 {
        return chunks;
    }
    if data.len() <= CHUNK_SIZE_BYTES {
        chunks.push(copy_of(data));
        proof {
            assert(views(chunks@) =~= seq![data@]);
        }
        return chunks;
    }
    let max_start_offset: usize = data.len() - CHUNK_SIZE_BYTES;
    let mut generator = seeded_generator(data.len() as u64);
    let mut n: usize = 0;
    while n < NUM_CHUNKS
        invariant
            0 <= n <= NUM_CHUNKS,
            chunks@.len() == n,
            CHUNK_SIZE_BYTES < data@.len() <= usize::MAX,
            max_start_offset == data@.len() - CHUNK_SIZE_BYTES,
            forall|i: int| 0 <= i < n ==> is_sample_of(#[trigger] chunks@[i]@, data@),
        decreases NUM_CHUNKS - n,
    {
        let offset = random_offset(&mut generator, max_start_offset as u64) as usize;
        let chunk = copy_of(slice_subrange(data, offset, offset + CHUNK_SIZE_BYTES));
        proof {
            assert(chunk@ == data@.subrange(offset as int, offset + CHUNK_SIZE_BYTES));
            assert(is_sample_of(chunk@, data@));
        }
        chunks.push(chunk);
        n += 1;
    }
    proof {
        assert forall|i: int| 0 <= i < views(chunks@).len() implies is_sample_of(
            #[trigger] views(chunks@)[i],
            data@,
        ) by {
            assert(is_sample_of(chunks@[i]@, data@));
        }
    }
    chunks
}

/// Chooses the format for `data` from samples of it: the hybrid format if
/// it wins on strictly more samples, the pair format otherwise.
pub fn auto_select(data: &[u8]) -> (version: Version)
    ensures
        version != Version::Auto,
        exists|chunks: Seq<Seq<u8>>|
            #[trigger] valid_samples(chunks, data@) && version == auto_choice(chunks),
        data@.len() <= CHUNK_SIZE_BYTES ==> version == auto_choice(
            if data@.len() == 0 {
                Seq::empty()
            } else {
                seq![data@]
            },
        ),
{
    let random_chunks = read_multiple_random_chunks(data);
    let choice = auto_choice_from_chunks(&random_chunks);
    proof {
        assert(valid_samples(views(random_chunks@), data@));
        if data@.len() == 0 {
            assert(views(random_chunks@) =~= Seq::<Seq<u8>>::empty());
        }
    }
    choice
}

} // verus!
