//! What a receiver keeps about the files it is reassembling.
use vstd::prelude::*;

verus! {

/// The state of one file under the Raptor transfer: per chunk, how many
/// segments arrived and whether it is decoded; the segments themselves; and
/// whether the decoded chunks are being merged into the file.
pub struct FileDetails {
    pub filename: String,
    pub chunksize: u64,
    pub num_segments_recv_per_chunk: Vec<u64>,
    pub segment_data_recv_per_chunk: Vec<SegmentData>,
    pub chunk_decoding_status: Vec<String>,
    pub file_merging_status: bool,
}

/// Segment counts per chunk of one file.
pub struct FileChunkSegment {
    pub filename: String,
    pub chunks_segments: Vec<u64>,
}

/// Segment data per chunk of one file.
pub struct FileData {
    pub filename: String,
    pub chunk_segment_data: Vec<SegmentData>,
}

/// The segments received for one chunk, indexed by position.
pub struct SegmentData {
    pub chunk_id: usize,
    pub segments: Vec<Vec<u8>>,
}

/// Decoding status of each chunk of one file.
pub struct DecodingStatus {
    pub filename: String,
    pub chunks_status: Vec<String>,
}

/// Whether the chunks of one file have been merged.
pub struct MergingStatus {
    pub filename: String,
    pub chunksize: u64,
    pub expected_chunks: u64,
    pub status: bool,
}

/// The mathematical content of a `SegmentData`.
pub struct SegmentModel {
    pub chunk_id: usize,
    pub segments: Seq<Seq<u8>>,
}

/// The mathematical content of a `FileDetails`.
pub struct FileModel {
    pub filename: Seq<char>,
    pub chunksize: u64,
    pub counts: Seq<u64>,
    pub segment_data: Seq<SegmentModel>,
    pub statuses: Seq<Seq<char>>,
    pub merging: bool,
}

impl View for SegmentData {
    type V = SegmentModel;

    open spec fn view(&self) -> SegmentModel {
        SegmentModel { chunk_id: self.chunk_id, segments: self.segments@.map_values(|s: Vec<u8>| s@) }
    }
}

impl View for FileDetails {
    type V = FileModel;

    open spec fn view(&self) -> FileModel {
        FileModel {
            filename: self.filename@,
            chunksize: self.chunksize,
            counts: self.num_segments_recv_per_chunk@,
            segment_data: self.segment_data_recv_per_chunk@.map_values(|sd: SegmentData| sd@),
            statuses: self.chunk_decoding_status@.map_values(|s: String| s@),
            merging: self.file_merging_status,
        }
    }
}

} // verus!
