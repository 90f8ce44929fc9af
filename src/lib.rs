//! Pairs camera images with the timestamps that a sensor logged for them.
//!
//! Images and timestamp files are selected from the names found in their directories, the
//! timestamps of each recording session are moved onto that session's absolute time base, and
//! the images are paired with the timestamps in order. Times are fixed-point counts of
//! microseconds.
pub mod grammar;
pub mod image;
pub mod record;
pub mod select;
pub mod timestamp;

use vstd::prelude::*;
use crate::image::{image_keys, key_of_bound};
use crate::record::{aligned_all, aligned_fit, seqs_of, some_empty};
use crate::select::{bound_ok, keys_in_range, selected_names};

verus! {

/// What can go wrong while selecting, aligning and pairing.
#[derive(Debug, PartialEq, Eq)]
pub enum Error {
    /// A configured first or last image number is carried by no image file.
    InvalidImageNumber(usize),
    /// A configured first or last timestamp file name names no timestamp file.
    InvalidTimestampFileName(String),
    /// A line of a timestamp file is not a decimal number of seconds.
    ParseTimestamp(String),
    /// A timestamp file selected for a record holds no timestamps.
    NoTimestamps,
    /// The timestamp file and record counts differ.
    RecordCountMismatch {
        /// The number of timestamp files.
        timestamps: usize,
        /// The number of records.
        records: usize,
    },
    /// The timestamp and image counts differ.
    TimestampCountMismatch {
        /// The number of timestamps.
        timestamps: usize,
        /// The number of images.
        images: usize,
    },
}

/// An image with its timestamp.
#[derive(Debug)]
pub struct Image {
    /// The file name of the image, within the image directory.
    pub path: String,
    /// The timestamp of the image, in microseconds.
    pub timestamp: i64,
}

/// The image file names of a list of images.
pub open spec fn paths_of(v: Seq<Image>) -> Seq<String> {
    v.map_values(|i: Image| i.path)
}

/// The timestamps of a list of images.
pub open spec fn timestamps_of(v: Seq<Image>) -> Seq<int> {
    v.map_values(|i: Image| i.timestamp as int)
}

/// Pairs each image with the timestamp at the same position.
pub fn pair(paths: Vec<String>, timestamps: Vec<i64>) -> (r: Result<Vec<Image>, Error>)
    ensures
        paths.len() != timestamps.len() ==> r == Err::<Vec<Image>, Error>(
            Error::TimestampCountMismatch { timestamps: timestamps.len(), images: paths.len() },
        ),
        paths.len() == timestamps.len() ==> (r matches Ok(v) && paths_of(v@) == paths@
            && timestamps_of(v@) == timestamps@.map_values(|t: i64| t as int)),
{
    if paths.len() != timestamps.len() {
        return Err(
            Error::TimestampCountMismatch { timestamps: timestamps.len(), images: paths.len() },
        );
    }
    let mut out: Vec<Image> = Vec::new();
    let mut i: usize = 0;
    while i < paths.len()
        invariant
            i <= paths.len(),
            paths.len() == timestamps.len(),
            paths_of(out@) == paths@.take(i as int),
            timestamps_of(out@) == timestamps@.map_values(|t: i64| t as int).take(i as int),
        decreases paths.len() - i,
    {
        let path = paths[i].clone();
        let ghost prev = out@;
        out.push(Image { path, timestamp: timestamps[i] });
        assert(paths_of(out@) =~= paths_of(prev).push(paths@[i as int]));
        assert(paths_of(out@) =~= paths@.take(i + 1));
        assert(timestamps_of(out@) =~= timestamps@.map_values(|t: i64| t as int).take(i + 1));
        i = i + 1;
    }
    assert(paths@.take(paths.len() as int) =~= paths@);
    assert(timestamps@.map_values(|t: i64| t as int).take(i as int) =~= timestamps@.map_values(
        |t: i64| t as int,
    ));
    Ok(out)
}

/// Configuration for a set of images.
pub struct ImageConfig {
    /// The directory that holds the images.
    pub path: String,
    /// The number of the first image to be used; if `None`, the first image found.
    pub start: Option<usize>,
    /// The number of the last image to be used; if `None`, the last image found.
    pub end: Option<usize>,
}

/// Configuration for timestamps.
pub struct TimestampConfig {
    /// The directory that holds the timestamp files.
    pub path: String,
    /// The name of the first timestamp file to be used; if `None`, the first one found.
    pub start: Option<String>,
    /// The name of the last timestamp file to be used; if `None`, the last one found.
    pub end: Option<String>,
}

/// Configuration for records.
pub type RecordConfig = record::Config;

/// Configuration of images, timestamp files and records.
pub struct Config {
    /// Image configuration.
    pub images: ImageConfig,
    /// Timestamp configuration.
    pub timestamps: TimestampConfig,
    /// Record configuration.
    pub records: RecordConfig,
}

/// What pairing the images named in `names` with the timestamps `tss` under `c` gives.
pub open spec fn image_list_result(c: Config, names: Seq<String>, tss: Seq<Seq<i64>>, r: Result<Vec<Image>, Error>) -> bool {
    let keys = image_keys(names);
    let first = key_of_bound(c.images.start);
    let last = key_of_bound(c.images.end);
    let starts = c.records.start_times@;
    let n_images = keys_in_range(keys, first, last).len();
    let aligned = aligned_all(starts, tss);
    if !bound_ok(keys, first) {
        r == Err::<Vec<Image>, Error>(Error::InvalidImageNumber(c.images.start->0))
    } else if !bound_ok(keys, last) {
        r == Err::<Vec<Image>, Error>(Error::InvalidImageNumber(c.images.end->0))
    } else if starts.len() != tss.len() {
        r == Err::<Vec<Image>, Error>(
            Error::RecordCountMismatch { timestamps: tss.len() as usize, records: starts.len() as usize },
        )
    } else if some_empty(tss) {
        r == Err::<Vec<Image>, Error>(Error::NoTimestamps)
    } else if n_images != aligned.len() {
        r == Err::<Vec<Image>, Error>(
            Error::TimestampCountMismatch { timestamps: aligned.len() as usize, images: n_images as usize },
        )
    } else {
        r matches Ok(v) && selected_names(names, keys, first, last, paths_of(v@)) && timestamps_of(
            v@,
        ) == aligned
    }
}

/// A first image number that no image name carries is rejected, however many images there are.
pub proof fn invalid_first_bound_rejected(
    c: Config,
    names: Seq<String>,
    tss: Seq<Seq<i64>>,
    r: Result<Vec<Image>, Error>,
    n: usize,
)
    requires
        c.images.start == Some(n),
        forall|i: int| 0 <= i < names.len() ==> image::image_number_of(#[trigger] names[i]@) != Some(
            n as u64,
        ),
        image_list_result(c, names, tss, r),
    ensures
        r == Err::<Vec<Image>, Error>(Error::InvalidImageNumber(n)),
{
    assert(!bound_ok(image_keys(names), key_of_bound(c.images.start))) by {
        if has_key_of(names, n) {
            let i = choose|i: int| 0 <= i < names.len() && image_keys(names)[i] == Some(n as u64);
            assert(image_keys(names)[i] == image::image_number_of(names[i]@));
        }
    }
}

/// Whether some name carries image number `n`.
spec fn has_key_of(names: Seq<String>, n: usize) -> bool {
    select::has_key(image_keys(names), n as u64)
}

/// With no image names and no bounds, but with timestamps to pair, the counts differ.
pub proof fn no_images_with_timestamps_mismatch(
    c: Config,
    names: Seq<String>,
    tss: Seq<Seq<i64>>,
    r: Result<Vec<Image>, Error>,
)
    requires
        c.images.start is None,
        c.images.end is None,
        forall|i: int| 0 <= i < names.len() ==> image::image_number_of(#[trigger] names[i]@) is None,
        c.records.start_times@.len() == tss.len(),
        !some_empty(tss),
        tss.len() > 0,
        image_list_result(c, names, tss, r),
    ensures
        r == Err::<Vec<Image>, Error>(
            Error::TimestampCountMismatch {
                timestamps: aligned_all(c.records.start_times@, tss).len() as usize,
                images: 0,
            },
        ),
{
    image::lemma_no_keys_none_in_range(image_keys(names));
    lemma_aligned_len_pos(c.records.start_times@, tss, tss.len());
}

proof fn lemma_aligned_len_pos(starts: Seq<i64>, tss: Seq<Seq<i64>>, n: nat)
    requires
        0 < n <= tss.len(),
        !some_empty(tss),
    ensures
        record::aligned_upto(starts, tss, n).len() > 0,
    decreases n,
{
    assert(tss[n - 1].len() != 0);
    if n > 1 {
        lemma_aligned_len_pos(starts, tss, (n - 1) as nat);
    }
}

/// With valid image bounds, a record count that differs from the number of timestamp files is
/// reported with both counts.
pub proof fn record_count_mismatch_reported(
    c: Config,
    names: Seq<String>,
    tss: Seq<Seq<i64>>,
    r: Result<Vec<Image>, Error>,
)
    requires
        bound_ok(image_keys(names), key_of_bound(c.images.start)),
        bound_ok(image_keys(names), key_of_bound(c.images.end)),
        c.records.start_times@.len() != tss.len(),
        image_list_result(c, names, tss, r),
    ensures
        r == Err::<Vec<Image>, Error>(
            Error::RecordCountMismatch {
                timestamps: tss.len() as usize,
                records: c.records.start_times@.len() as usize,
            },
        ),
{
}

/// Where the bounds are valid and the counts agree, the images come out in order of number,
/// each within the bounds, the image at position `j` paired with the aligned timestamp at
/// position `j`.
pub proof fn image_list_pairs_in_order(
    c: Config,
    names: Seq<String>,
    tss: Seq<Seq<i64>>,
    r: Result<Vec<Image>, Error>,
)
    requires
        bound_ok(image_keys(names), key_of_bound(c.images.start)),
        bound_ok(image_keys(names), key_of_bound(c.images.end)),
        c.records.start_times@.len() == tss.len(),
        !some_empty(tss),
        keys_in_range(image_keys(names), key_of_bound(c.images.start), key_of_bound(c.images.end)).len()
            == aligned_all(c.records.start_times@, tss).len(),
        image_list_result(c, names, tss, r),
    ensures
        r is Ok,
        timestamps_of(r->Ok_0@) == aligned_all(c.records.start_times@, tss),
        image::selection_facts(c.images, names, paths_of(r->Ok_0@)),
{
    image::lemma_selection_facts(c.images, names, paths_of(r->Ok_0@));
}

impl Config {
    /// Creates a configuration with empty paths, no bounds and no records.
    pub fn new() -> (r: Config)
        ensures
            r.images.path@ == Seq::<char>::empty(),
            r.images.start is None,
            r.images.end is None,
            r.timestamps.path@ == Seq::<char>::empty(),
            r.timestamps.start is None,
            r.timestamps.end is None,
            r.records.start_times@ == Seq::<i64>::empty(),
    {
        Config {
            images: image::Config::new(),
            timestamps: timestamp::Config::new(),
            records: record::Config { start_times: Vec::new() },
        }
    }

    /// Selects the image names among the names of the files in the image directory.
    pub fn image_paths(&self, file_names: &Vec<String>) -> (r: Result<Vec<String>, Error>)
        ensures
            self.images.paths_result(file_names@, r),
    {
        self.images.paths(file_names)
    }

    /// Selects the timestamp file names among the names of the files in the timestamp
    /// directory.
    pub fn timestamp_paths(&self, file_names: &Vec<String>) -> (r: Result<Vec<String>, Error>)
        ensures
            self.timestamps.paths_result(file_names@, r),
    {
        self.timestamps.paths(file_names)
    }

    /// Pairs the selected images, named among `image_file_names`, with the timestamps of the
    /// records, `timestamps[i]` being those of record `i`, once aligned.
    pub fn image_list(&self, image_file_names: &Vec<String>, timestamps: &Vec<Vec<i64>>) -> (r: Result<Vec<Image>, Error>)
        requires
            aligned_fit(self.records.start_times@, seqs_of(timestamps@)),
        ensures
            image_list_result(*self, image_file_names@, seqs_of(timestamps@), r),
    {
        let paths = match self.images.paths(image_file_names) {
            Ok(p) => p,
            Err(e) => return Err(e),
        };
        proof {
            select::lemma_selected_len(
                image_file_names@,
                image_keys(image_file_names@),
                key_of_bound(self.images.start),
                key_of_bound(self.images.end),
                paths@,
            );
        }
        let ts = match self.records.adjust_timestamps(timestamps) {
            Ok(t) => t,
            Err(e) => return Err(e),
        };
        let r = pair(paths, ts);
        proof {
            if r is Ok {
                let v = r->Ok_0;
                assert(paths_of(v@) =~= paths@);
            }
        }
        r
    }
}

} // verus!
