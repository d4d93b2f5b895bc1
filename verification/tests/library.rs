use khalzam::check_extension;
use khalzam::db::mem::MemoryRepo;
use khalzam::get_songname;
use khalzam::text::describe;
use khalzam::LibError;
use khalzam::MusicLibrary;

#[test]
fn test_check_extension() {
    assert!(check_extension("good.mp3").is_ok());
    assert!(check_extension("bad.pdf").is_err());
}

#[test]
fn test_get_songname() {
    assert_eq!(get_songname("some_name.mp3").unwrap(), "some_name");
}

#[test]
fn test_get_songname_with_directory() {
    assert_eq!(get_songname("/dir/some_name.mp3").unwrap(), "some_name");
}

#[test]
fn test_check_extension_edge_cases() {
    // an empty extension is invalid, as is none at all
    assert_eq!(check_extension("file."), Err(LibError::InvalidExtension));
    assert_eq!(check_extension("file"), Err(LibError::InvalidExtension));
    // a hidden file has no extension
    assert_eq!(check_extension(".mp3"), Err(LibError::InvalidExtension));
    // the check is on the last path component
    assert!(check_extension("/a.mp3/b.mp3").is_ok());
    assert_eq!(check_extension("/dir.mp3/file.wav"), Err(LibError::InvalidExtension));
}

#[test]
fn test_check_extension_trailing_separators() {
    // trailing separators and bare `.` components are resolved away
    assert!(check_extension("x.mp3/").is_ok());
    assert!(check_extension("x.mp3//").is_ok());
    assert!(check_extension("x.mp3/.").is_ok());
    assert_eq!(check_extension("x.mp3/.."), Err(LibError::InvalidExtension));
}

#[test]
fn test_get_songname_trailing_separators() {
    assert_eq!(get_songname("dir/").unwrap(), "dir");
    assert_eq!(get_songname("some_name.mp3//").unwrap(), "some_name");
    assert_eq!(get_songname("a/./").unwrap(), "a");
}

#[test]
fn test_get_songname_empty_path() {
    assert_eq!(get_songname(""), Err(LibError::InvalidPath));
    assert_eq!(get_songname("/"), Err(LibError::InvalidPath));
    assert_eq!(get_songname("."), Err(LibError::InvalidPath));
    assert_eq!(get_songname(".."), Err(LibError::InvalidPath));
    assert_eq!(get_songname("a/.."), Err(LibError::InvalidPath));
}

#[test]
fn test_get_songname_hidden_file() {
    // a leading dot does not start an extension
    assert_eq!(get_songname(".profile").unwrap(), ".profile");
    assert_eq!(get_songname("a.b.mp3").unwrap(), "a.b");
}

#[test]
fn test_recognize_wrong_extension() {
    let lib = MusicLibrary::new(MemoryRepo::new());
    let spectra: Vec<Vec<u32>> = Vec::new();
    assert_eq!(lib.recognize("x.wav", &spectra), Err(LibError::InvalidExtension));
}

#[test]
fn test_add_wrong_extension() {
    let mut lib = MusicLibrary::new(MemoryRepo::new());
    let spectra: Vec<Vec<u32>> = Vec::new();
    assert_eq!(lib.add("x.wav", &spectra), Err(LibError::InvalidExtension));
}

#[test]
fn test_delete_missing_song() {
    let mut lib = MusicLibrary::new(MemoryRepo::new());
    assert_eq!(lib.delete("nothing").unwrap(), "Song not found");
}

#[test]
fn test_describe_format() {
    assert_eq!(describe("Song", 57), "Song (57% matched)");
    assert_eq!(describe("x", 0), "x (0% matched)");
    assert_eq!(describe("y", 100), "y (100% matched)");
}

#[test]
fn test_library_round_trip() {
    // add a synthesised track, then recognize the very same spectra
    let mut lib = MusicLibrary::new(MemoryRepo::new());
    let mut spectra: Vec<Vec<u32>> = Vec::new();
    for k in 0..4u32 {
        let mut m = vec![0u32; 261];
        m[(3 * k) as usize] = 10 + k;
        m[100] = 2;
        spectra.push(m);
    }
    lib.add("tone.mp3", &spectra).unwrap();
    assert_eq!(lib.recognize("tone.mp3", &spectra).unwrap(), "tone (100% matched)");
    assert_eq!(lib.delete("tone").unwrap(), "Successfully deleted");
    assert_eq!(lib.recognize("tone.mp3", &spectra).unwrap(), "No matchings");
}
