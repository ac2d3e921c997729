use surveillance::cache::{sample_to_cache_entry, CacheEntry, CacheIndex, KnownFaceSample};
use surveillance::known_faces::{
    cascade_candidates, describe_load_error, file_signature, images_to_load, is_image_name,
    known_images, plan_image, resolve_cascade_path, sample_path, settle_image, sorted_persons,
    take_cached_sample, ImagePlan, ImageStep, LoadError, PersonDir,
};

fn texts(list: &[&str]) -> Vec<String> {
    list.iter().map(|s| s.to_string()).collect()
}

fn entry(no_face: bool) -> CacheEntry {
    let sample = KnownFaceSample {
        name: "ann".to_string(),
        path: "ann/1.jpg".to_string(),
        signature: "10:20".to_string(),
        rows: 1,
        cols: 2,
        mat_type: 0,
        data: vec![7, 8],
    };
    let mut e = sample_to_cache_entry(&sample);
    e.no_face = no_face;
    e
}

#[test]
fn persons_are_sorted() {
    let names = texts(&["zoe", "Ann", "ann", "Ärger", "bob"]);
    let mut expected = names.clone();
    expected.sort();
    assert_eq!(sorted_persons(&names), expected);
}

#[test]
fn images_are_found_and_sorted() {
    let files: Vec<(Vec<u8>, String)> = ["b.JPG", "a.png", "notes.txt", "c.jpeg", "B.Jpeg", ".png", "jpg"]
        .iter()
        .map(|s| (s.as_bytes().to_vec(), s.to_string()))
        .collect();
    assert_eq!(images_to_load(&files), vec![5, 4, 1, 0, 3]);
    assert!(is_image_name("x.jpg") && is_image_name("x.jpeg") && is_image_name("x.png"));
    assert!(!is_image_name("x.JPG") && !is_image_name("jpg") && !is_image_name("x.gif"));
}

#[test]
fn images_have_a_path_and_a_signature() {
    assert_eq!(sample_path("ann", "1.jpg"), "ann/1.jpg");
    assert_eq!(file_signature(12, 34), "12:34");
    assert_eq!(
        file_signature(u64::MAX, u128::MAX),
        "18446744073709551615:340282366920938463463374607431768211455",
    );
    assert_ne!(file_signature(1, 23), file_signature(12, 3));
}

#[test]
fn an_unchanged_image_is_taken_from_the_cache() {
    let mut cache = CacheIndex::new();
    cache.insert(entry(false));
    assert!(matches!(plan_image(&cache, "ann/1.jpg", "10:21"), ImagePlan::Read));
    assert!(matches!(plan_image(&cache, "ann/2.jpg", "10:20"), ImagePlan::Read));
    match plan_image(&cache, "ann/1.jpg", "10:20") {
        ImagePlan::UseCached(e) => {
            let sample = take_cached_sample("ann", e, Some(2)).unwrap();
            assert_eq!(sample.data, vec![7, 8]);
            assert_eq!((sample.rows, sample.cols, sample.mat_type), (1, 2, 0));
            assert_eq!(sample.name, "ann");
            assert_eq!(sample.path, "ann/1.jpg");
            assert_eq!(sample.signature, "10:20");
        }
        other => panic!("{other:?}"),
    }
    cache.insert(entry(true));
    assert!(matches!(plan_image(&cache, "ann/1.jpg", "10:20"), ImagePlan::Skip));
}

#[test]
fn a_damaged_entry_gives_no_sample() {
    assert!(take_cached_sample("ann", entry(false), Some(3)).is_none());
    assert!(take_cached_sample("ann", entry(false), None).is_none());
    let mut e = entry(false);
    e.data = "???".to_string();
    assert!(take_cached_sample("ann", e, Some(2)).is_none());
}

#[test]
fn the_classifier_is_looked_for_in_order() {
    let standard = [
        "/usr/share/opencv4/haarcascades/haarcascade_frontalface_default.xml",
        "/usr/share/opencv/haarcascades/haarcascade_frontalface_default.xml",
        "/usr/local/share/opencv4/haarcascades/haarcascade_frontalface_default.xml",
        "/usr/local/share/opencv/haarcascades/haarcascade_frontalface_default.xml",
    ];
    assert_eq!(cascade_candidates("  "), standard);
    let with = cascade_candidates(" /opt/c.xml\n");
    assert_eq!(with[0], "/opt/c.xml");
    assert_eq!(&with[1..], &standard);
    let places = |flags: [bool; 3]| {
        vec![
            ("a".to_string(), flags[0]),
            ("b".to_string(), flags[1]),
            ("c".to_string(), flags[2]),
        ]
    };
    assert_eq!(resolve_cascade_path(&places([false, true, true])).as_deref(), Some("b"));
    assert_eq!(resolve_cascade_path(&places([true, true, true])).as_deref(), Some("a"));
    assert_eq!(resolve_cascade_path(&places([false, false, false])), None);
}

#[test]
fn errors_are_described() {
    assert_eq!(
        describe_load_error(&LoadError::NoClassifier),
        "could not find haarcascade_frontalface_default.xml",
    );
    assert_eq!(
        describe_load_error(&LoadError::Classifier("x".to_string())),
        "CascadeClassifier::new failed: x",
    );
    assert_eq!(describe_load_error(&LoadError::Samples("y".to_string())), "y");
}

#[test]
fn images_are_settled_by_the_cache() {
    match settle_image("ann", ImagePlan::UseCached(entry(false)), Some(2)) {
        ImageStep::Done(Some(sample)) => assert_eq!(sample.data, vec![7, 8]),
        other => panic!("{other:?}"),
    }
    assert!(matches!(
        settle_image("ann", ImagePlan::UseCached(entry(false)), Some(9)),
        ImageStep::Read
    ));
    assert!(matches!(settle_image("ann", ImagePlan::Skip, None), ImageStep::Done(None)));
    assert!(matches!(settle_image("ann", ImagePlan::Read, None), ImageStep::Read));
}

#[test]
fn images_are_read_person_by_person() {
    let dir = |name: &str, files: &[&str]| PersonDir {
        name: name.to_string(),
        files: files.iter().map(|f| (f.as_bytes().to_vec(), f.to_string())).collect(),
    };
    let dirs = vec![
        dir("eve", &["2.png", "notes.txt", "10.jpg"]),
        dir("nobody", &["readme"]),
        dir("Zoe", &["z.JPEG"]),
        dir("ann", &["b.jpg", "a.jpg", "B.jpg"]),
    ];
    let images = known_images(&dirs);
    assert_eq!(images, vec![(2, 0), (3, 2), (3, 1), (3, 0), (0, 2), (0, 0)]);
    let paths: Vec<String> =
        images.iter().map(|&(p, f)| sample_path(&dirs[p].name, &dirs[p].files[f].1)).collect();
    assert_eq!(
        paths,
        ["Zoe/z.JPEG", "ann/B.jpg", "ann/a.jpg", "ann/b.jpg", "eve/10.jpg", "eve/2.png"],
    );
    assert!(known_images(&vec![]).is_empty());
}
