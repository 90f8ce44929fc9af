use riprocess::image;
use riprocess::record;
use riprocess::timestamp;
use riprocess::{pair, Config, Error};

fn names(v: &[&str]) -> Vec<String> {
    v.iter().map(|s| s.to_string()).collect()
}

fn micros(text: &str) -> i64 {
    timestamp::parse_timestamp(text).unwrap()
}

fn micros_all(v: &[&str]) -> Vec<i64> {
    v.iter().map(|s| micros(s)).collect()
}

fn seconds(t: i64) -> f64 {
    t as f64 / 1e6
}

fn close(actual: &[i64], expected: &[f64]) -> bool {
    actual.len() == expected.len()
        && actual.iter().zip(expected.iter()).all(|(a, b)| (seconds(*a) - b).abs() < 1e-7)
}

fn reference_timestamps() -> Vec<Vec<i64>> {
    vec![micros_all(&["73779.899441", "73781.419326"]), micros_all(&["73840.399224", "73842.018970"])]
}

fn reference_config() -> Config {
    let mut config = Config::new();
    config.images.path = "data/images".to_string();
    config.images.start = Some(3522);
    config.images.end = Some(3525);
    config.timestamps.path = "data/timestamps".to_string();
    config.records.start_times = micros_all(&["332978.669", "333039.279"]);
    config
}

fn image_dir() -> Vec<String> {
    names(&[
        "DSC03521.JPG",
        "DSC03522.JPG",
        "DSC03523.JPG",
        "DSC03524.JPG",
        "DSC03525.JPG",
        "DSC03526.JPG",
        "DSC03527.JPG",
    ])
}

#[test]
fn from_reference() {
    let config = record::Config { start_times: micros_all(&["332978.669", "333039.279"]) };
    let timestamps = config.adjust_timestamps(&reference_timestamps()).unwrap();
    assert_eq!(4, timestamps.len());
    let expected = vec![332979.899441, 332981.419326, 333040.399224, 333042.018970];
    assert!(close(&timestamps, &expected), "actual={:?}, expected={:?}", timestamps, expected);
}

#[test]
fn empty_timestamps() {
    let config = record::Config { start_times: vec![micros("1")] };
    let timestamps = vec![vec![]];
    assert!(config.adjust_timestamps(&timestamps).is_err());
    assert_eq!(Err(Error::NoTimestamps), config.adjust_timestamps(&timestamps));
}

#[test]
fn count_mismatch() {
    let config = record::Config { start_times: vec![micros("1"), micros("2")] };
    let timestamps = vec![vec![micros("1")]];
    assert!(config.adjust_timestamps(&timestamps).is_err());
    assert_eq!(
        Err(Error::RecordCountMismatch { timestamps: 1, records: 2 }),
        config.adjust_timestamps(&timestamps)
    );
}

#[test]
fn single_timestamp_aligned_with_itself() {
    let t = micros("73779.899441");
    let config = record::Config { start_times: vec![t] };
    assert_eq!(Ok(vec![t]), config.adjust_timestamps(&vec![vec![t]]));
}

#[test]
fn alignment_exact_values() {
    let config = record::Config { start_times: vec![332_978_669_000] };
    let out = config.adjust_timestamps(&vec![vec![73_779_899_441, 73_794_899_136]]).unwrap();
    assert_eq!(vec![332_979_899_441, 332_994_899_136], out);
    let config = record::Config { start_times: vec![-150_000_000] };
    assert_eq!(Ok(vec![-199_000_000]), config.adjust_timestamps(&vec![vec![1_000_000]]));
    assert!(config.aligned_timestamps_fit(&vec![vec![1_000_000]]));
    let config = record::Config { start_times: vec![i64::MAX] };
    assert!(!config.aligned_timestamps_fit(&vec![vec![99_999_999]]));
}

#[test]
fn timestamp_lines() {
    assert_eq!(Some(73_779_899_441), timestamp::parse_timestamp("73779.899441"));
    assert_eq!(Some(-1_500_000), timestamp::parse_timestamp("-1.5"));
    assert_eq!(Some(2_000_000), timestamp::parse_timestamp("+2"));
    assert_eq!(Some(3_000_000), timestamp::parse_timestamp("3."));
    assert_eq!(Some(500_000), timestamp::parse_timestamp(".5"));
    assert_eq!(None, timestamp::parse_timestamp("."));
    assert_eq!(None, timestamp::parse_timestamp("abc"));
    assert_eq!(None, timestamp::parse_timestamp("inf"));
    assert_eq!(None, timestamp::parse_timestamp("1.2.3"));
    assert_eq!(None, timestamp::parse_timestamp("-"));
    assert_eq!(None, timestamp::parse_timestamp(""));
    assert_eq!(None, timestamp::parse_timestamp(" 1"));
    assert_eq!(None, timestamp::parse_timestamp("99999999999999"));
    assert_eq!(Some(i64::MIN), timestamp::parse_timestamp("-9223372036854.775808"));
    assert_eq!(Some(i64::MAX), timestamp::parse_timestamp("9223372036854.775807"));
    assert_eq!(None, timestamp::parse_timestamp("9223372036854.775808"));
}

#[test]
fn timestamp_lines_exponents() {
    assert_eq!(Some(73_779_899_441), timestamp::parse_timestamp("7.3779899441e4"));
    assert_eq!(Some(150_000_000), timestamp::parse_timestamp("1.5e2"));
    assert_eq!(Some(730_000), timestamp::parse_timestamp("7.3e-1"));
    assert_eq!(Some(100_000_000_000), timestamp::parse_timestamp("1E+5"));
    assert_eq!(Some(-20_000), timestamp::parse_timestamp("-.2e-1"));
    assert_eq!(None, timestamp::parse_timestamp("1e"));
    assert_eq!(None, timestamp::parse_timestamp("e5"));
    assert_eq!(None, timestamp::parse_timestamp("1e+"));
    assert_eq!(None, timestamp::parse_timestamp("1e5.0"));
    assert_eq!(Some(0), timestamp::parse_timestamp("0e9999999999999999999999999999999999"));
    assert_eq!(None, timestamp::parse_timestamp("1e9999999999999999999999999999999999"));
    assert_eq!(Some(0), timestamp::parse_timestamp("7e-9999999999999999999999999999999999"));
    assert_eq!(Some(0), timestamp::parse_timestamp("0.000e30"));
}

#[test]
fn timestamp_lines_round_to_nearest() {
    assert_eq!(Some(1_234_568), timestamp::parse_timestamp("1.2345678"));
    assert_eq!(Some(1_234_567), timestamp::parse_timestamp("1.2345674999"));
    assert_eq!(Some(1), timestamp::parse_timestamp("0.0000005"));
    assert_eq!(Some(0), timestamp::parse_timestamp("0.0000004999"));
    assert_eq!(Some(-1), timestamp::parse_timestamp("-0.0000005"));
    assert_eq!(Some(73_779_899_441), timestamp::parse_timestamp("73779.8994410000000000000001"));
}

#[test]
fn timestamps() {
    let files = vec![
        names(&["73779.899441", "73781.419326", "73782.899381"]),
        names(&["73779.899441", "", "73781.419326"]),
    ];
    let timestamps = files.iter().map(|f| timestamp::parse_timestamps(f).unwrap()).collect::<Vec<_>>();
    assert_eq!(
        vec![
            vec![73_779_899_441, 73_781_419_326, 73_782_899_381],
            vec![73_779_899_441, 73_781_419_326]
        ],
        timestamps
    );
    assert_eq!(
        Err(Error::ParseTimestamp("x1".to_string())),
        timestamp::parse_timestamps(&names(&["1", "x1", "y"]))
    );
    assert_eq!(Ok(vec![500_000]), timestamp::parse_timestamps(&names(&[".5"])));
}

#[test]
fn image_list() {
    let config = reference_config();
    let images = config.image_list(&image_dir(), &reference_timestamps()).unwrap();
    let file_names = images.iter().map(|image| image.path.clone()).collect::<Vec<_>>();
    assert_eq!(names(&["DSC03522.JPG", "DSC03523.JPG", "DSC03524.JPG", "DSC03525.JPG"]), file_names);
    let expected = vec![332979.899441, 332981.419326, 333040.399224, 333042.018970];
    let actual = images.iter().map(|image| image.timestamp).collect::<Vec<_>>();
    assert!(close(&actual, &expected), "{:?}", actual);
    assert_eq!(vec![332_979_899_441, 332_981_419_326, 333_040_399_224, 333_042_018_970], actual);
}

#[test]
fn record_count_mismatch() {
    let mut config = reference_config();
    config.records.start_times = vec![micros("1")];
    assert!(config.image_list(&image_dir(), &reference_timestamps()).is_err());
    let mut config = reference_config();
    config.records.start_times = micros_all(&["332978.669", "333039.279"]);
    let one_file = vec![micros_all(&["73779.899441", "73781.419326"])];
    assert_eq!(
        Err(Error::RecordCountMismatch { timestamps: 1, records: 2 }).map(|_: ()| ()),
        config.image_list(&image_dir(), &one_file).map(|_| ())
    );
}

#[test]
fn image_count_mismatch() {
    let mut config = reference_config();
    config.images.end = None;
    assert!(config.image_list(&image_dir(), &reference_timestamps()).is_err());
    assert_eq!(
        Err(Error::TimestampCountMismatch { timestamps: 4, images: 6 }).map(|_: ()| ()),
        config.image_list(&image_dir(), &reference_timestamps()).map(|_| ())
    );
}

#[test]
fn config_no_images() {
    let mut config = reference_config();
    config.images.path = "data".to_string();
    config.images.start = None;
    config.images.end = None;
    let data = names(&["config.toml", "images", "timestamps"]);
    assert!(config.image_list(&data, &reference_timestamps()).is_err());
}

#[test]
fn empty_selection_is_no_error() {
    let mut config = Config::new();
    config.images.path = "data".to_string();
    let images = config.image_list(&Vec::new(), &Vec::new()).unwrap();
    assert!(images.is_empty());
    assert!(config.image_paths(&Vec::new()).unwrap().is_empty());
}

#[test]
fn image_paths() {
    let mut config = Config::new();
    assert!(config.image_paths(&names(&["config.toml"])).unwrap().is_empty());
    assert_eq!(7, config.image_paths(&image_dir()).unwrap().len());
    config.images.start = Some(3522);
    assert_eq!(6, config.image_paths(&image_dir()).unwrap().len());
    config.images.end = Some(3526);
    assert_eq!(5, config.image_paths(&image_dir()).unwrap().len());
    config.images.start = Some(42);
    config.images.end = None;
    assert!(config.image_paths(&image_dir()).is_err());
    config.images.start = None;
    config.images.end = Some(42);
    assert!(config.image_paths(&image_dir()).is_err());
}

#[test]
fn timestamp_paths() {
    let dir = names(&["170621_202838.eif", "170621_202939.eif", "170621_203040.eif", "170621_203141.eif"]);
    let mut config = Config::new();
    assert!(config.timestamp_paths(&names(&["images"])).unwrap().is_empty());
    assert_eq!(4, config.timestamp_paths(&dir).unwrap().len());
    config.timestamps.start = Some("170621_202939.eif".to_string());
    assert_eq!(3, config.timestamp_paths(&dir).unwrap().len());
    config.timestamps.end = Some("170621_203040.eif".to_string());
    assert_eq!(2, config.timestamp_paths(&dir).unwrap().len());
    config.timestamps.start = Some("not a timestamp file".to_string());
    config.timestamps.end = None;
    assert!(config.timestamp_paths(&dir).is_err());
    config.timestamps.start = None;
    config.timestamps.end = Some("not a timestamp file".to_string());
    assert!(config.timestamp_paths(&dir).is_err());
}

#[test]
fn pairing_counts() {
    let paths = names(&["DSC00001.JPG"]);
    assert_eq!(
        Err(Error::TimestampCountMismatch { timestamps: 2, images: 1 }).map(|_: ()| ()),
        pair(paths.clone(), vec![1, 2]).map(|_| ())
    );
    let out = pair(paths, vec![7]).unwrap();
    assert_eq!("DSC00001.JPG", out[0].path);
    assert_eq!(7, out[0].timestamp);
    let _ = image::Config::new();
}
