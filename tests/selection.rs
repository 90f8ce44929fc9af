use riprocess::image;
use riprocess::timestamp;
use riprocess::Error;

fn names(v: &[&str]) -> Vec<String> {
    v.iter().map(|s| s.to_string()).collect()
}

fn data_dir() -> Vec<String> {
    names(&["config.toml", "images", "timestamps"])
}

fn image_dir() -> Vec<String> {
    names(&[
        "DSC03525.JPG",
        "DSC03521.JPG",
        "DSC03527.JPG",
        "DSC03522.JPG",
        "notes.txt",
        "DSC03524.JPG",
        "DSC03526.JPG",
        "DSC03523.JPG",
    ])
}

fn timestamp_dir() -> Vec<String> {
    names(&[
        "170621_203040.eif",
        "170621_202838.eif",
        "not a timestamp file",
        "170621_203141.eif",
        "170621_202939.eif",
    ])
}

fn image_config(start: Option<usize>, end: Option<usize>) -> image::Config {
    image::Config { path: "data/images".to_string(), start, end }
}

fn timestamp_config(start: Option<&str>, end: Option<&str>) -> timestamp::Config {
    timestamp::Config {
        path: "data/timestamps".to_string(),
        start: start.map(|s| s.to_string()),
        end: end.map(|s| s.to_string()),
    }
}

#[test]
fn image_no_images() {
    let config = image::Config { path: "data".to_string(), start: None, end: None };
    assert!(config.paths(&data_dir()).unwrap().is_empty());
}

#[test]
fn all_images() {
    let config = image_config(None, None);
    assert_eq!(7, config.paths(&image_dir()).unwrap().len());
}

#[test]
fn image_start() {
    let config = image_config(Some(3522), None);
    assert_eq!(6, config.paths(&image_dir()).unwrap().len());
}

#[test]
fn image_end() {
    let config = image_config(None, Some(3522));
    assert_eq!(2, config.paths(&image_dir()).unwrap().len());
}

#[test]
fn start_out_of_range() {
    let config = image_config(Some(3520), None);
    assert!(config.paths(&image_dir()).is_err());
}

#[test]
fn end_out_of_range() {
    let config = image_config(None, Some(3428));
    assert!(config.paths(&image_dir()).is_err());
}

#[test]
fn image_paths_are_sorted_and_bounded() {
    let config = image_config(Some(3522), Some(3526));
    let paths = config.paths(&image_dir()).unwrap();
    assert_eq!(
        names(&["DSC03522.JPG", "DSC03523.JPG", "DSC03524.JPG", "DSC03525.JPG", "DSC03526.JPG"]),
        paths
    );
}

#[test]
fn invalid_bound_names_the_value() {
    let config = image_config(Some(42), None);
    assert_eq!(Err(Error::InvalidImageNumber(42)), config.paths(&image_dir()));
    let config = image_config(None, Some(42));
    assert_eq!(Err(Error::InvalidImageNumber(42)), config.paths(&image_dir()));
    let config = image_config(Some(42), None);
    assert_eq!(Err(Error::InvalidImageNumber(42)), config.paths(&Vec::new()));
}

#[test]
fn image_name_grammar() {
    assert_eq!(Some(3522), image::extract_image_number("DSC03522.JPG"));
    assert_eq!(Some(0), image::extract_image_number("DSC00000.JPG"));
    assert_eq!(Some(99999), image::extract_image_number("DSC99999.JPG"));
    assert_eq!(None, image::extract_image_number("DSC03522.jpg"));
    assert_eq!(None, image::extract_image_number("DSC0352.JPG"));
    assert_eq!(None, image::extract_image_number("DSC035222.JPG"));
    assert_eq!(None, image::extract_image_number("DSC03522xJPG"));
    assert_eq!(None, image::extract_image_number("DSC0352é.JPG"));
    assert_eq!(None, image::extract_image_number(""));
}

#[test]
fn no_paths() {
    let config = timestamp::Config { path: "data".to_string(), start: None, end: None };
    assert!(config.paths(&data_dir()).unwrap().is_empty());
}

#[test]
fn all_paths() {
    let config = timestamp_config(None, None);
    assert_eq!(4, config.paths(&timestamp_dir()).unwrap().len());
}

#[test]
fn timestamp_start() {
    let config = timestamp_config(Some("170621_202939.eif"), None);
    assert_eq!(3, config.paths(&timestamp_dir()).unwrap().len());
}

#[test]
fn timestamp_end() {
    let config = timestamp_config(None, Some("170621_202939.eif"));
    assert_eq!(2, config.paths(&timestamp_dir()).unwrap().len());
}

#[test]
fn invalid_start() {
    let config = timestamp_config(Some("not a timestamp file"), None);
    assert!(config.paths(&timestamp_dir()).is_err());
}

#[test]
fn invalid_end() {
    let config = timestamp_config(None, Some("not a timestamp file"));
    assert!(config.paths(&timestamp_dir()).is_err());
}

#[test]
fn timestamp_paths_are_sorted() {
    let config = timestamp_config(Some("170621_202939.eif"), Some("170621_203040.eif"));
    assert_eq!(
        names(&["170621_202939.eif", "170621_203040.eif"]),
        config.paths(&timestamp_dir()).unwrap()
    );
    let config = timestamp_config(None, Some("170621_209999.eif"));
    assert_eq!(
        Err(Error::InvalidTimestampFileName("170621_209999.eif".to_string())),
        config.paths(&timestamp_dir())
    );
}

#[test]
fn timestamp_name_grammar() {
    assert!(timestamp::file_name_is_match("170621_202939.eif"));
    assert!(!timestamp::file_name_is_match("170621-202939.eif"));
    assert!(!timestamp::file_name_is_match("170621_202939.EIF"));
    assert!(!timestamp::file_name_is_match("17062_202939.eif"));
    assert_eq!(Some(170621202939), timestamp::timestamp_key("170621_202939.eif"));
    let a = timestamp::timestamp_key("170621_202939.eif").unwrap();
    let b = timestamp::timestamp_key("170621_203040.eif").unwrap();
    let c = timestamp::timestamp_key("170622_000000.eif").unwrap();
    assert!(a < b && b < c);
    assert!("170621_202939.eif" < "170621_203040.eif" && "170621_203040.eif" < "170622_000000.eif");
}
