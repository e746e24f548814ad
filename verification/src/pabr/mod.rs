//! PABR region maps: a RID dictionary of region ids and a BKD file of
//! run-length scanlines whose breakpoints index that dictionary.
use vstd::prelude::*;

pub mod util;
pub mod parse;
pub mod render;
pub mod geojson;
pub mod matching;
pub mod region_match;
pub mod current_layer;

pub use util::color_rgb_for_value;

verus! {

/// The row shift that the client applies to each scanline.
pub const DEFAULT_ROW_SHIFT: u32 = 0x0EF0;

/// The length of the fixed RID footer.
pub const RID_FOOTER_LEN: usize = 47;

/// The ten bytes that open every RID footer.
pub const RID_FOOTER_SIGNATURE: [u8; 10] = [0x00, 0x00, 0x60, 0xFF, 0xFF, 0xFF, 0x78, 0x87, 0x00, 0x00];

/// The length of the BKD trailer after the row payload.
pub const BKD_TRAILER_LEN: usize = 12;

/// The dictionary index that marks a transparent run.
pub const INDEX_SENTINEL: u16 = 0xFFFF;

/// One run start in a BKD scanline: from `source_x` on, the scanline shows
/// dictionary entry `dictionary_index`.
#[derive(Clone, Copy, Debug, PartialEq, Eq)]
pub struct Breakpoint {
    pub source_x: u16,
    pub dictionary_index: u16,
}

/// The RID file: the dictionary of region ids and the map's native size.
#[derive(Clone, Debug)]
pub struct RidFile {
    pub region_ids: Vec<u16>,
    pub native_width: u32,
    pub native_height: u32,
    pub trailer_prefix_len: usize,
}

/// The BKD file: one list of breakpoints per scanline, sorted by `source_x`.
#[derive(Clone, Debug)]
pub struct BkdFile {
    pub rows: Vec<Vec<Breakpoint>>,
    pub trailer_words: [u32; 3],
    pub max_source_x: u16,
}

/// A RID and BKD pair with the paths they came from.
#[derive(Clone, Debug)]
pub struct PabrMap {
    pub rid_path: String,
    pub bkd_path: String,
    pub rid: RidFile,
    pub bkd: BkdFile,
}

/// The size of a rendered image.
#[derive(Clone, Copy, Debug, PartialEq, Eq)]
pub struct OutputDimensions {
    pub width: u32,
    pub height: u32,
}

/// What `PabrMap::inspect` reports.
#[derive(Clone, Copy, Debug, PartialEq, Eq)]
pub struct PabrInspect {
    pub dictionary_entries: usize,
    pub scanline_rows: usize,
    pub native_width: u32,
    pub native_height: u32,
    pub wrapped_bands: usize,
    pub used_dictionary_entries: usize,
    pub used_region_ids: usize,
    pub transparent_breakpoints: usize,
    pub max_source_x: u16,
    pub rid_trailer_prefix_len: usize,
    pub bkd_trailer_words: [u32; 3],
}

/// Where an image was rendered, and its size.
#[derive(Clone, Debug)]
pub struct RenderSummary {
    pub output_path: String,
    pub dimensions: OutputDimensions,
}

/// What a GeoJSON export wrote.
#[derive(Clone, Debug)]
pub struct GeoJsonExportSummary {
    pub output_path: String,
    pub feature_count: usize,
    pub rectangle_count: usize,
}

/// What a region match report holds.
#[derive(Clone, Debug)]
pub struct RegionMatchSummary {
    pub output_path: String,
    pub pabr_region_count: usize,
    pub current_region_count: usize,
    pub overlap_pair_count: usize,
    pub pabr_only_count: usize,
    pub current_only_count: usize,
    pub mutual_best_match_count: usize,
}

/// A run of one value on a scanline, from `start_x` up to `end_x`.
#[derive(Clone, Copy, Debug, PartialEq, Eq, Structural)]
pub struct RowSegment {
    pub start_x: u32,
    pub end_x: u32,
    pub value: u32,
}

/// Why PABR data could not be read or used.
#[derive(Clone, Debug, PartialEq, Eq)]
pub enum PabrError {
    RidTooSmall,
    RidMissingMagic,
    RidDictionaryOverflow,
    RidDictionaryExceedsFile,
    RidFooterSignature,
    BkdTooSmall,
    BkdMissingMagic,
    /// The header of this row runs past the end of the file.
    BkdRowHeaderExceedsFile(usize),
    /// The byte length of this row does not fit in `usize`.
    BkdRowLengthOverflow(usize),
    /// The breakpoints of this row run past the end of the file.
    BkdRowPayloadExceedsFile(usize),
    /// This row is not sorted by `source_x`.
    BkdRowNotSorted(usize),
    /// The bytes left after the rows, where the trailer's length is expected.
    BkdFooterLengthMismatch(usize),
    /// The trailer's offset word and the end of the row payload.
    BkdFooterOffsetMismatch(u32, usize),
    ZeroNativeWidth,
    /// A dictionary index and the dictionary's length.
    DictionaryIndexOutOfRange(usize, usize),
    SourceRowOutOfBounds(usize),
    ZeroNativeDimensions,
    NoBkdRows,
    ZeroOutputDimensions,
    ImageTooLarge,
    /// An input path whose extension is neither `rid` nor `bkd`.
    NotPabrPath(String),
    /// The two row lists to compare have different lengths.
    RowCountMismatch(usize, usize),
    /// The two row lists hold more runs than the shared areas can be
    /// summed over in 64 bits.
    OverlapSegmentLimit,
    /// A match report was asked for with no candidates per region.
    ZeroTopCount,
}

} // verus!
