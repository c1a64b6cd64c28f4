use s3_archiving::content::{content_key, content_name, to_hex};
use s3_archiving::control::{
    check_content_name, check_entry_content, check_entry_names, check_object_count,
    missing_message, ControlError,
};
use s3_archiving::fill_bucket::{
    answer_of, keys_to_delete, steps_of, RequestEnvelope, ResourceProperties, ResourceRequest,
    SizeBudget, Step, Work, MAX_DEVIATION, MIN_FILE_SIZE, SIZE_STDDEV,
};
use s3_archiving::listing::{
    add_listed_names, directory_prefix, list_file_infos, list_names, list_source_files, next_page,
    slash_ended_prefix, ListedObject, NameSet,
};
use s3_archiving::object_reader::{
    Located, S3ObjectReader, S3ObjectReaderWindow, SeekTarget, WindowRange, WindowRangeSet,
    MAX_WINDOW_SIZE, MIN_WINDOW_SIZE,
};
use s3_archiving::plan::FileId;

fn listed(key: &str, size: i64) -> ListedObject {
    ListedObject { key: Some(key.to_string()), size: Some(size) }
}

fn keys(all: &[&str]) -> Vec<Option<String>> {
    all.iter().map(|k| Some(k.to_string())).collect()
}

fn page() -> Vec<ListedObject> {
    vec![
        listed("files/", 0),
        listed("files/a", 3),
        ListedObject { key: None, size: Some(1) },
        ListedObject { key: Some("files/b".to_string()), size: None },
        listed("other/c", 4),
        listed("files/sub/d", 5),
    ]
}

#[test]
fn prefixes_end_in_a_slash() {
    assert_eq!(directory_prefix("files"), "files/");
    assert_eq!(directory_prefix("files/"), "files//");
    assert_eq!(slash_ended_prefix("files"), "files/");
    assert_eq!(slash_ended_prefix("files/"), "files/");
    assert_eq!(slash_ended_prefix(""), "/");
}

#[test]
fn listed_files_are_numbered() {
    let files = list_source_files("files/", page());
    let seen: Vec<(FileId, &str, &str, u64)> = files
        .iter()
        .map(|f| (f.id, f.key.as_str(), f.name.as_str(), f.size))
        .collect();
    assert_eq!(
        seen,
        vec![
            (FileId(0), "files/a", "a", 3),
            (FileId(1), "files/sub/d", "sub/d", 5),
        ]
    );
}

#[test]
fn listed_infos_name_their_bucket() {
    let infos = list_file_infos("b", "files/", page());
    let seen: Vec<(&str, &str, &str, usize)> = infos
        .iter()
        .map(|f| (f.name.as_str(), f.bucket_name.as_str(), f.key.as_str(), f.size))
        .collect();
    assert_eq!(
        seen,
        vec![("a", "b", "files/a", 3), ("sub/d", "b", "files/sub/d", 5)]
    );
}

#[test]
fn listed_names_keep_their_order() {
    let mut page = keys(&["files/", "files/b", "x", "files/a", "files/b"]);
    page.push(None);
    assert_eq!(list_names("files/", page), vec!["b", "a", "b"]);
}

#[test]
fn names_are_kept_once() {
    let mut names = NameSet::new();
    add_listed_names("files/", keys(&["files/a", "files/", "y", "files/b"]), &mut names);
    add_listed_names("files/", keys(&["files/a"]), &mut names);
    assert_eq!(names.len(), 2);
    assert_eq!(names.names, vec!["a", "b"]);
}

#[test]
fn pages_follow_while_there_is_a_token() {
    let token = || Some("t".to_string());
    assert_eq!(next_page(Some(true), token()), token());
    assert_eq!(next_page(Some(true), None), None);
    assert_eq!(next_page(Some(false), token()), None);
    assert_eq!(next_page(None, token()), None);
}

#[test]
fn content_is_named_by_its_digest() {
    let abc = "ba7816bf8f01cfea414140de5dae2223b00361a396177a9cb410ff61f20015ad";
    assert_eq!(to_hex(&[0, 15, 16, 255]), "000f10ff");
    assert_eq!(content_name(b"abc"), abc);
    assert_eq!(content_key("files", b"abc"), format!("files/{abc}"));
    assert!(check_entry_content(abc.to_string(), b"abc").is_ok());
    match check_entry_content(abc.to_string(), b"abd") {
        Err(ControlError::ContentMismatch { file, actual }) => {
            assert_eq!(file, abc);
            assert_eq!(actual, content_name(b"abd"));
        }
        other => panic!("{other:?}"),
    }
    assert!(check_content_name("x".to_string(), "x".to_string()).is_ok());
    assert!(check_content_name("x".to_string(), "y".to_string()).is_err());
}

#[test]
fn bucket_holds_what_it_should() {
    assert!(check_object_count(5, 5).is_ok());
    assert!(matches!(
        check_object_count(4, 5),
        Err(ControlError::BadObjectCount(4, 5))
    ));
}

fn expected(all: &[&str]) -> NameSet {
    let mut names = NameSet::new();
    for name in all {
        names.insert(name.to_string());
    }
    names
}

fn named(all: &[&str]) -> Vec<String> {
    all.iter().map(|n| n.to_string()).collect()
}

#[test]
fn archive_names_are_checked() {
    assert!(check_entry_names(&named(&["b", "a"]), expected(&["a", "b"])).is_ok());
    assert!(check_entry_names(&vec![], expected(&[])).is_ok());
    match check_entry_names(&named(&["a", "d/e"]), expected(&["a", "b"])) {
        Err(ControlError::HierarchyForbidden(file)) => assert_eq!(file, "d/e"),
        other => panic!("{other:?}"),
    }
    match check_entry_names(&named(&["a", "a"]), expected(&["a", "b"])) {
        Err(ControlError::UnknownOrDuplicate(file)) => assert_eq!(file, "a"),
        other => panic!("{other:?}"),
    }
    match check_entry_names(&named(&["z"]), expected(&["a"])) {
        Err(ControlError::UnknownOrDuplicate(file)) => assert_eq!(file, "z"),
        other => panic!("{other:?}"),
    }
    let many = ["a", "b", "c", "d", "e", "f", "g"];
    match check_entry_names(&named(&["c"]), expected(&many)) {
        Err(ControlError::MissingObjects { count, sample }) => {
            assert_eq!(count, 6);
            assert_eq!(sample.len(), 5);
            assert!(!sample.contains(&"c".to_string()));
        }
        other => panic!("{other:?}"),
    }
}

fn properties(count: &str, mb: &str) -> ResourceProperties {
    ResourceProperties {
        bucket_name: "b".to_string(),
        key_prefix: "files".to_string(),
        object_count: count.to_string(),
        object_size_mb: mb.to_string(),
    }
}

fn envelope() -> RequestEnvelope {
    RequestEnvelope {
        response_url: "url".to_string(),
        stack_id: "stack".to_string(),
        request_id: "request".to_string(),
        logical_resource_id: "logical".to_string(),
    }
}

#[test]
fn new_resource_is_named_by_its_bucket() {
    let request = ResourceRequest::Create { envelope: envelope(), properties: properties("1", "1") };
    let (common, work) = request.split();
    assert_eq!(common.physical_resource_id, "fill-bucket-b");
    assert_eq!(common.response_url, "url");
    assert_eq!(common.stack_id, "stack");
    assert_eq!(common.request_id, "request");
    assert_eq!(common.logical_resource_id, "logical");
    assert!(matches!(work, Work::Create(_)));
    assert!(matches!(steps_of(work).as_slice(), [Step::Fill(_)]));
}

#[test]
fn update_empties_then_fills() {
    let request = ResourceRequest::Update {
        envelope: envelope(),
        physical_resource_id: "id".to_string(),
        old_properties: properties("1", "1"),
        properties: properties("2", "2"),
    };
    let (common, work) = request.split();
    assert_eq!(common.physical_resource_id, "id");
    match steps_of(work).as_slice() {
        [Step::Empty(old), Step::Fill(new)] => {
            assert_eq!(old.object_count, "1");
            assert_eq!(new.object_count, "2");
        }
        other => panic!("{other:?}"),
    }
}

#[test]
fn delete_empties() {
    let request = ResourceRequest::Delete {
        envelope: envelope(),
        physical_resource_id: "id".to_string(),
        properties: properties("1", "1"),
    };
    let (_, work) = request.split();
    assert!(matches!(steps_of(work).as_slice(), [Step::Empty(_)]));
}

#[test]
fn stack_is_told_the_outcome() {
    assert_eq!(answer_of(Ok(())), (true, "ok".to_string()));
    assert_eq!(answer_of(Err("no".to_string())), (false, "no".to_string()));
}

#[test]
fn budget_of_the_properties() {
    assert_eq!(
        properties("10", "5").budget(),
        Some(SizeBudget { remaining_size_budget: 52_428_800, remaining_objects: 10 })
    );
    assert_eq!(
        properties("+3", "007").budget(),
        Some(SizeBudget { remaining_size_budget: 3 * 7 * 1024 * 1024, remaining_objects: 3 })
    );
    assert_eq!(properties("", "5").budget(), None);
    assert_eq!(properties("ten", "5").budget(), None);
    assert_eq!(properties("1", "-5").budget(), None);
    assert_eq!(properties("99999999999999999999", "1").budget(), None);
}

#[test]
fn sizes_stay_near_the_mean_and_add_up() {
    assert_eq!(MAX_DEVIATION, 3 * SIZE_STDDEV);
    let total = 4 * 5 * 1024 * 1024;
    let mut budget = SizeBudget { remaining_size_budget: total, remaining_objects: 4 };
    assert_eq!(budget.mean(), 5 * 1024 * 1024);
    let first = budget.next_size(0);
    assert_eq!(first, 5 * 1024 * 1024 - MAX_DEVIATION);
    let mean = budget.mean();
    let second = budget.next_size(usize::MAX);
    assert_eq!(second, mean + MAX_DEVIATION);
    let third = budget.next_size(5_000_000);
    assert_eq!(third, 5_000_000);
    let last = budget.next_size(1);
    assert_eq!(first + second + third + last, total);
    assert_eq!(budget, SizeBudget { remaining_size_budget: 0, remaining_objects: 0 });
    let mut low = SizeBudget { remaining_size_budget: 2 * MAX_DEVIATION, remaining_objects: 2 };
    assert_eq!(low.next_size(0), MIN_FILE_SIZE);
}

#[test]
fn mean_is_rounded() {
    let mean = |size: usize, objects: usize| {
        SizeBudget { remaining_size_budget: size, remaining_objects: objects }.mean()
    };
    assert_eq!(mean(7, 2), 4);
    assert_eq!(mean(10, 3), 3);
    assert_eq!(mean(11, 3), 4);
}

#[test]
fn all_keys_of_a_page_are_deleted() {
    let mut page = keys(&["a", "b"]);
    page.insert(1, None);
    assert_eq!(keys_to_delete(page), vec!["a", "b"]);
}

#[test]
fn ranges_cover_positions_and_ranges() {
    let range = WindowRange::new(10, 5);
    assert_eq!((range.start, range.end), (10, 15));
    assert!(range.contains(10) && range.contains(14) && !range.contains(15));
    assert!(range.covers(&WindowRange::new(11, 4)));
    assert!(!range.covers(&WindowRange::new(11, 5)));
    assert_eq!(range.byte_range().header(), "bytes=10-14");
    let mut set = WindowRangeSet::new();
    set.insert(WindowRange::new(20, 10));
    set.insert(WindowRange::new(0, 10));
    set.insert(WindowRange::new(0, 10));
    set.insert(WindowRange::new(0, 5));
    assert_eq!(
        set.0,
        vec![WindowRange::new(0, 5), WindowRange::new(0, 10), WindowRange::new(20, 10)]
    );
    assert_eq!(set.get_position_cover(7), Some(WindowRange::new(0, 10)));
    assert_eq!(set.get_position_cover(20), Some(WindowRange::new(20, 10)));
    assert_eq!(set.get_position_cover(15), None);
    assert_eq!(
        set.get_range_cover(&WindowRange::new(2, 3)),
        Some(WindowRange::new(0, 10))
    );
    assert_eq!(set.get_range_cover(&WindowRange::new(5, 20)), None);
    set.remove(&WindowRange::new(0, 10));
    set.remove(&WindowRange::new(1, 1));
    assert_eq!(set.0.len(), 2);
}

fn window(object: &[u8], range: WindowRange) -> S3ObjectReaderWindow {
    let end = range.end.min(object.len());
    S3ObjectReaderWindow { range, buf: object[range.start..end].to_vec() }
}

/// Reads as a caller of the reader does, fetching what it asks for.
fn read_at(
    reader: &mut S3ObjectReader,
    object: &[u8],
    pending: &mut Vec<WindowRange>,
    max: usize,
) -> Vec<u8> {
    loop {
        match reader.locate() {
            Located::Here(next) => {
                pending.extend(next);
                return reader.read(max);
            }
            Located::Elsewhere => {
                if pending.is_empty() {
                    pending.extend(reader.before_waiting());
                }
                let range = pending.remove(0);
                reader.accept(window(object, range));
            }
        }
    }
}

#[test]
fn reader_reads_the_object() {
    let size = 3 * MIN_WINDOW_SIZE + 1_000;
    let object: Vec<u8> = (0..size).map(|i| (i / 1_000) as u8).collect();
    let mut reader = S3ObjectReader::new(size);
    let mut pending = Vec::new();
    assert_eq!(
        read_at(&mut reader, &object, &mut pending, 10),
        object[..10].to_vec()
    );
    assert_eq!(
        pending,
        vec![WindowRange::new(MIN_WINDOW_SIZE, 2 * MIN_WINDOW_SIZE)]
    );
    assert_eq!(reader.seek(SeekTarget::End(-500)), (size - 500) as u64);
    assert_eq!(
        read_at(&mut reader, &object, &mut pending, 1_000),
        object[size - 500..].to_vec()
    );
    assert_eq!(reader.position, size);
    reader.seek(SeekTarget::Start(MIN_WINDOW_SIZE as u64 - 5));
    assert_eq!(
        read_at(&mut reader, &object, &mut pending, 100),
        object[MIN_WINDOW_SIZE - 5..MIN_WINDOW_SIZE + 95].to_vec()
    );
}

#[test]
fn small_object_is_asked_for_as_a_whole() {
    let mut reader = S3ObjectReader::new(100);
    assert_eq!(reader.locate(), Located::Elsewhere);
    assert_eq!(reader.before_waiting(), Some(WindowRange::new(0, MIN_WINDOW_SIZE)));
    assert_eq!(reader.before_waiting(), None);
    reader.accept(window(&[7; 100], WindowRange::new(0, MIN_WINDOW_SIZE)));
    assert_eq!(reader.locate(), Located::Here(None));
    assert_eq!(reader.read(1_000), vec![7; 100]);
    assert_eq!(reader.locate(), Located::Here(None));
    assert_eq!(reader.read(10), Vec::<u8>::new());
}

#[test]
fn windows_double_up_to_a_limit() {
    let size = 4 * MAX_WINDOW_SIZE;
    let mut reader = S3ObjectReader::new(size);
    reader.accept(S3ObjectReaderWindow {
        range: WindowRange::new(0, MAX_WINDOW_SIZE - 1),
        buf: vec![],
    });
    assert_eq!(
        reader.locate(),
        Located::Here(Some(WindowRange::new(MAX_WINDOW_SIZE - 1, MAX_WINDOW_SIZE)))
    );
    assert_eq!(reader.locate(), Located::Here(None));
}

#[test]
fn seeking_keeps_in_range() {
    let mut reader = S3ObjectReader::new(1_000);
    assert_eq!(reader.seek(SeekTarget::End(5)), 1_000);
    assert_eq!(reader.seek(SeekTarget::End(-2_000)), 0);
    assert_eq!(reader.seek(SeekTarget::Start(2_000)), 2_000);
    assert_eq!(reader.seek(SeekTarget::Current(-500)), 1_500);
    assert_eq!(reader.seek(SeekTarget::Current(i64::MIN)), 0);
    assert_eq!(reader.seek(SeekTarget::Current(7)), 7);
}

#[test]
fn refusals_in_words() {
    assert_eq!(
        ControlError::BadObjectCount(4, 5).message(),
        "expected 5 test objects in bucket, found 4"
    );
    assert_eq!(
        ControlError::HierarchyForbidden("d/e".to_string()).message(),
        "archive contains nested path 'd/e', flat layout required"
    );
    assert_eq!(
        ControlError::ContentMismatch { file: "a".to_string(), actual: "b".to_string() }.message(),
        "content hash mismatch for 'a': computed b"
    );
    assert_eq!(
        ControlError::UnknownOrDuplicate("z".to_string()).message(),
        "unknown or duplicate object in archive: 'z'"
    );
    let sample = vec!["a".to_string(), "b\"c".to_string(), "d\n".to_string()];
    let listed = format!("{sample:?}");
    assert_eq!(listed, "[\"a\", \"b\\\"c\", \"d\\n\"]");
    assert_eq!(
        ControlError::MissingObjects { count: 7, sample }.message(),
        format!("archive missing 7 expected object(s) (sample: {listed})")
    );
    assert_eq!(
        ControlError::MissingObjects { count: 1, sample: vec![] }.message(),
        "archive missing 1 expected object(s) (sample: [])"
    );
    assert_eq!(
        missing_message(2, &vec!["x".to_string(), "y".to_string()]),
        "archive missing 2 expected object(s) (sample: [x, y])"
    );
}

#[test]
fn sizes_need_a_budget() {
    let none = SizeBudget { remaining_size_budget: 5, remaining_objects: 0 };
    assert!(!none.can_take(1));
    let last = SizeBudget { remaining_size_budget: 5, remaining_objects: 1 };
    assert!(last.can_take(1));
    let low = SizeBudget { remaining_size_budget: 2 * MAX_DEVIATION - 2, remaining_objects: 2 };
    assert!(!low.can_take(MAX_DEVIATION));
    // The mean is rounded up to the deviation, and the largest size is one too much.
    let odd = SizeBudget { remaining_size_budget: 2 * MAX_DEVIATION - 1, remaining_objects: 2 };
    assert_eq!(odd.mean(), MAX_DEVIATION);
    assert!(odd.can_take(2 * MAX_DEVIATION - 1));
    assert!(!odd.can_take(2 * MAX_DEVIATION));
}
