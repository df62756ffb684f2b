use rust_asar::asar::Asar;
use rust_asar::content::{Content, Step};
use rust_asar::error::{Error, HeaderFault};
use rust_asar::header::{decode_padded_prefix, decode_prefix, encode_header, get_header};
use rust_asar::json::JsonValue;
use rust_asar::pack::{data_region, gen_value_from_dir, write_to_asar, DirNode};
use rust_asar::path::split_path;

fn text(s: &str) -> String {
    s.to_string()
}

fn object(members: Vec<(&str, JsonValue)>) -> JsonValue {
    JsonValue::Object(members.into_iter().map(|(k, v)| (text(k), v)).collect())
}

fn file_desc(offset: &str, size: u64) -> JsonValue {
    object(vec![("size", JsonValue::Number(Some(size))), ("offset", JsonValue::Str(text(offset)))])
}

fn folder_desc(members: Vec<(&str, JsonValue)>) -> JsonValue {
    object(vec![("files", object(members))])
}

/// The header of the sample archive: a folder `folder1` with two files, and
/// a file `test1.txt` beside it.
fn sample_header() -> JsonValue {
    folder_desc(vec![
        (
            "folder1",
            folder_desc(vec![
                ("script.py", file_desc("0", 55)),
                ("test_image.jpg", file_desc("55", 29968)),
            ]),
        ),
        ("test1.txt", file_desc("30023", 21)),
    ])
}

/// The sample directory, as listed from the file system.
fn sample_dir() -> DirNode {
    DirNode::Dir(
        text("test_folder"),
        vec![
            DirNode::Dir(
                text("folder1"),
                vec![
                    DirNode::File(text("script.py"), text("test_folder/folder1/script.py"), 55),
                    DirNode::File(
                        text("test_image.jpg"),
                        text("test_folder/folder1/test_image.jpg"),
                        29968,
                    ),
                ],
            ),
            DirNode::File(text("test1.txt"), text("test_folder/test1.txt"), 21),
        ],
    )
}

fn has(v: &[String], s: &str) -> bool {
    v.iter().any(|x| x == s)
}

#[test]
fn test_header_1() {
    let dummy = Content::new_json(sample_header()).unwrap();
    let paths = dummy.paths_to_vec().unwrap();
    assert!(has(&paths, "folder1"));
    assert!(has(&paths, "folder1/script.py"));
    assert!(has(&paths, "test1.txt"));
    assert!(has(&paths, "folder1/test_image.jpg"));
    assert_eq!(paths.len(), 4);

    let val = Asar::gen_header_from_dir(&sample_dir());
    let content = Content::new_json(val.unwrap().0);
    assert!(content.is_ok());
    let paths = content.unwrap().paths_to_vec().unwrap();
    assert!(has(&paths, "folder1"));
    assert!(has(&paths, "folder1/script.py"));
    assert!(has(&paths, "test1.txt"));
    assert!(has(&paths, "folder1/test_image.jpg"));
    assert_eq!(paths.len(), 4);
}

#[test]
fn test_header_2() {
    let dummy = Content::new_json(sample_header()).unwrap();

    let content = dummy.find("test1.txt").unwrap();
    assert_eq!(*content, Content::File(text("test1.txt"), 30023, 21));

    let content = dummy.find("folder1/test_image.jpg").unwrap();
    assert_eq!(*content, Content::File(text("test_image.jpg"), 55, 29968));

    let content = dummy.find("folder1").unwrap();
    assert!(matches!(content, Content::Folder(name, _) if name == "folder1"));

    assert_eq!(*dummy.find("").unwrap(), dummy);

    assert!(dummy.find("test").is_none());
}

#[test]
fn test_asar2() {
    let asar = Asar::from_archive(text("test_asar.asar"), sample_header(), 796).unwrap();
    let list = asar.list().unwrap();
    assert!(has(&list, "folder1"));
    assert!(has(&list, "folder1/script.py"));
    assert!(has(&list, "folder1/test_image.jpg"));
    assert!(has(&list, "test1.txt"));
    assert_eq!(list.len(), 4);

    let list = asar.get_paths_contain("test");
    assert!(has(&list, "test1.txt"));
    assert!(has(&list, "folder1/test_image.jpg"));
    assert_eq!(list.len(), 2);

    let (header, files) = Asar::gen_header_from_dir(&sample_dir()).unwrap();
    let asar = Asar::from_dir(text("test_folder"), header, files, 780);
    let list = asar.list().unwrap();
    assert!(has(&list, "folder1"));
    assert!(has(&list, "folder1/script.py"));
    assert!(has(&list, "folder1/test_image.jpg"));
    assert!(has(&list, "test1.txt"));
    assert_eq!(list.len(), 4);

    let list = asar.get_paths_contain("test");
    assert!(has(&list, "test1.txt"));
    assert!(has(&list, "folder1/test_image.jpg"));
    assert_eq!(list.len(), 2);
}

#[test]
fn paths_are_listed_in_pre_order() {
    let tree = Content::new_json(sample_header()).unwrap();
    let paths = tree.paths_to_vec().unwrap();
    assert_eq!(
        paths,
        vec![
            text("folder1"),
            text("folder1/script.py"),
            text("folder1/test_image.jpg"),
            text("test1.txt")
        ]
    );
}

#[test]
fn empty_path_finds_the_top_and_missing_path_finds_nothing() {
    let tree = Content::new_json(sample_header()).unwrap();
    assert!(matches!(tree.find(""), Some(Content::Home(_))));
    assert!(matches!(tree.find("/"), Some(Content::Home(_))));
    assert!(tree.find("does/not/exist").is_none());
    assert!(tree.find("folder1/script.py/more").is_none());
}

#[test]
fn find_skips_empty_components() {
    let tree = Content::new_json(sample_header()).unwrap();
    assert_eq!(*tree.find("/folder1//script.py/").unwrap(), Content::File(text("script.py"), 0, 55));
}

#[test]
fn split_path_drops_empty_components() {
    assert_eq!(split_path("a//b/"), vec![text("a"), text("b")]);
    assert!(split_path("").is_empty());
    assert!(split_path("///").is_empty());
}

#[test]
fn find_gives_recorded_offset_and_size() {
    let tree = Content::new_json(sample_header()).unwrap();
    match tree.find("test1.txt") {
        Some(Content::File(_, offset, size)) => {
            assert_eq!(*offset, 30023);
            assert_eq!(*size, 21);
        }
        other => panic!("expected a file, found {:?}", other),
    }
}

#[test]
fn size_ceiling_is_inclusive() {
    let ok = folder_desc(vec![("big.bin", file_desc("0", 9007199254740991))]);
    let tree = Content::new_json(ok).unwrap();
    assert_eq!(*tree.find("big.bin").unwrap(), Content::File(text("big.bin"), 0, 9007199254740991));

    let too_big = folder_desc(vec![("big.bin", file_desc("0", 9007199254740992))]);
    assert_eq!(
        Content::new_json(too_big).unwrap_err(),
        Error::ParseHeaderError(HeaderFault::SizeTooLarge, text("big.bin"))
    );
}

#[test]
fn size_that_is_no_integer_is_refused() {
    let header = folder_desc(vec![(
        "neg.bin",
        object(vec![("size", JsonValue::Number(None)), ("offset", JsonValue::Str(text("0")))]),
    )]);
    assert_eq!(
        Content::new_json(header).unwrap_err(),
        Error::ParseHeaderError(HeaderFault::SizeNotInteger, text("neg.bin"))
    );
}

#[test]
fn offset_that_is_no_number_is_refused() {
    let header = folder_desc(vec![("a", folder_desc(vec![("x.txt", file_desc("12a", 3))]))]);
    assert_eq!(
        Content::new_json(header).unwrap_err(),
        Error::ParseHeaderError(HeaderFault::BadOffset, text("x.txt"))
    );
    let header = folder_desc(vec![("x.txt", file_desc("18446744073709551616", 3))]);
    assert_eq!(
        Content::new_json(header).unwrap_err(),
        Error::ParseHeaderError(HeaderFault::BadOffset, text("x.txt"))
    );
    let header = folder_desc(vec![("x.txt", file_desc("+18446744073709551615", 3))]);
    let tree = Content::new_json(header).unwrap();
    assert_eq!(*tree.find("x.txt").unwrap(), Content::File(text("x.txt"), 18446744073709551615, 3));
}

#[test]
fn entity_without_files_is_refused() {
    let header = folder_desc(vec![("odd", object(vec![("size", JsonValue::Number(Some(1)))]))]);
    assert_eq!(
        Content::new_json(header).unwrap_err(),
        Error::ParseHeaderError(HeaderFault::MissingFiles, text("odd"))
    );
    let header = object(vec![("other", JsonValue::Null)]);
    assert_eq!(
        Content::new_json(header).unwrap_err(),
        Error::ParseHeaderError(HeaderFault::MissingFiles, String::new())
    );
    assert_eq!(
        Content::new_json(JsonValue::Array(vec![])).unwrap_err(),
        Error::ParseHeaderError(HeaderFault::NotObject, String::new())
    );
}

#[test]
fn first_fault_in_order_is_reported() {
    let header = folder_desc(vec![
        ("a.txt", file_desc("zz", 1)),
        ("b.txt", file_desc("0", 9007199254740992)),
    ]);
    assert_eq!(
        Content::new_json(header).unwrap_err(),
        Error::ParseHeaderError(HeaderFault::BadOffset, text("a.txt"))
    );
}

#[test]
fn reading_a_folder_gives_no_data() {
    let asar = Asar::from_archive(text("a.asar"), sample_header(), 796).unwrap();
    assert_eq!(asar.file_region("folder1"), None);
    assert_eq!(asar.file_region(""), None);
    assert_eq!(asar.file_region("nothing"), None);
    assert_eq!(asar.file_region("folder1/test_image.jpg"), Some((796 + 55, 29968)));
}

#[test]
fn packing_lays_files_back_to_back() {
    let dir = DirNode::Dir(
        text("d"),
        vec![DirNode::File(text("A"), text("d/A"), 10), DirNode::File(text("B"), text("d/B"), 5)],
    );
    let (header, list) = Asar::gen_header_from_dir(&dir).unwrap();
    assert_eq!(list, vec![(text("d/A"), 10), (text("d/B"), 5)]);
    assert_eq!(header, folder_desc(vec![("A", file_desc("0", 10)), ("B", file_desc("10", 5))]));
    let tree = Content::new_json(header).unwrap();
    assert_eq!(*tree.find("A").unwrap(), Content::File(text("A"), 0, 10));
    assert_eq!(*tree.find("B").unwrap(), Content::File(text("B"), 10, 5));
}

#[test]
fn packing_refuses_files_above_the_ceiling() {
    let dir = DirNode::Dir(
        text("d"),
        vec![
            DirNode::File(text("A"), text("d/A"), 9007199254740992),
            DirNode::File(text("B"), text("d/B"), 1),
        ],
    );
    assert_eq!(
        Asar::gen_header_from_dir(&dir).unwrap_err(),
        Error::ParseHeaderError(HeaderFault::SizeTooLarge, text("A"))
    );
    let dir = DirNode::Dir(
        text("d"),
        vec![DirNode::File(text("A"), text("d/A"), 9007199254740991)],
    );
    assert!(Asar::gen_header_from_dir(&dir).is_ok());
}

#[test]
fn packed_header_decodes_to_the_same_files() {
    let (header, list) = Asar::gen_header_from_dir(&sample_dir()).unwrap();
    assert_eq!(
        list,
        vec![
            (text("test_folder/folder1/script.py"), 55),
            (text("test_folder/folder1/test_image.jpg"), 29968),
            (text("test_folder/test1.txt"), 21)
        ]
    );
    let tree = Content::new_json(header).unwrap();
    assert_eq!(*tree.find("folder1/script.py").unwrap(), Content::File(text("script.py"), 0, 55));
    assert_eq!(
        *tree.find("folder1/test_image.jpg").unwrap(),
        Content::File(text("test_image.jpg"), 55, 29968)
    );
    assert_eq!(*tree.find("test1.txt").unwrap(), Content::File(text("test1.txt"), 30023, 21));
}

#[test]
fn extraction_plan_mirrors_the_tree() {
    let tree = Content::new_json(sample_header()).unwrap();
    let steps = tree.asar_to_dir(&text("out"), 796).unwrap();
    assert_eq!(
        steps,
        vec![
            Step::CreateDir(text("out")),
            Step::CreateDir(text("out/folder1")),
            Step::WriteFile(text("out/folder1/script.py"), 796, 55),
            Step::WriteFile(text("out/folder1/test_image.jpg"), 851, 29968),
            Step::WriteFile(text("out/test1.txt"), 30819, 21),
        ]
    );
}

#[test]
fn extraction_fails_past_the_address_space() {
    let header = folder_desc(vec![("x", file_desc("18446744073709551615", 1))]);
    let tree = Content::new_json(header).unwrap();
    assert_eq!(tree.asar_to_dir(&text("out"), 1).unwrap_err(), Error::IoError(text("out/x")));
}

#[test]
fn lists_have_no_tree_and_trees_have_no_list() {
    let list = Content::new_list(vec![(text("a"), 1)]);
    assert!(matches!(list.paths_to_vec(), Err(Error::UnknownContentType(_))));
    assert!(matches!(list.asar_to_dir(&text("out"), 0), Err(Error::UnknownContentType(_))));
    assert_eq!(list.dir_to_asar().unwrap(), &vec![(text("a"), 1)]);
    let tree = Content::new_json(sample_header()).unwrap();
    assert!(matches!(tree.dir_to_asar(), Err(Error::UnknownContentType(_))));
    assert!(list.find("a").is_none());
}

#[test]
fn header_frame_is_exact() {
    let json = b"{\"files\":{}}".to_vec();
    let bytes = encode_header(&json);
    let mut expected = vec![4, 0, 0, 0, 20, 0, 0, 0, 16, 0, 0, 0, 12, 0, 0, 0];
    expected.extend_from_slice(&json);
    assert_eq!(bytes, expected);
    assert_eq!(decode_prefix(&bytes).unwrap(), (12, 28));
}

#[test]
fn large_lengths_are_little_endian() {
    let json = vec![b' '; 300];
    let bytes = encode_header(&json);
    assert_eq!(&bytes[..16], &[4, 0, 0, 0, 52, 1, 0, 0, 48, 1, 0, 0, 44, 1, 0, 0]);
    assert_eq!(decode_prefix(&bytes).unwrap(), (300, 316));
}

#[test]
fn padded_header_rounds_up_to_eight() {
    let json = b"{\"files\":{}}".to_vec();
    let bytes = get_header(&json);
    let mut expected = vec![4, 0, 0, 0, 24, 0, 0, 0, 20, 0, 0, 0, 12, 0, 0, 0];
    expected.extend_from_slice(&json);
    expected.extend_from_slice(&[0, 0, 0, 0]);
    assert_eq!(bytes, expected);
    assert_eq!(decode_prefix(&bytes).unwrap(), (12, 28));
    assert_eq!(decode_padded_prefix(&bytes).unwrap(), (12, 32));

    let eight = vec![b' '; 8];
    let bytes = get_header(&eight);
    assert_eq!(bytes.len(), 16 + 8);
    assert_eq!(&bytes[4..8], &[16, 0, 0, 0]);
    assert_eq!(decode_padded_prefix(&bytes).unwrap(), (8, 24));
}

#[test]
fn prefix_faults_are_reported() {
    assert_eq!(
        decode_prefix(&vec![4, 0, 0, 0]).unwrap_err(),
        Error::ParseHeaderError(HeaderFault::Truncated, String::new())
    );
    assert_eq!(
        decode_prefix(&vec![5, 0, 0, 0, 20, 0, 0, 0, 16, 0, 0, 0, 12, 0, 0, 0]).unwrap_err(),
        Error::ParseHeaderError(HeaderFault::BadMarker, String::new())
    );
    assert_eq!(
        decode_prefix(&vec![4, 0, 0, 0, 24, 0, 0, 0, 20, 0, 0, 0, 12, 0, 0, 0]).unwrap(),
        (12, 28)
    );
}

#[test]
fn writes_follow_the_header() {
    let header = folder_desc(vec![
        ("folder1", folder_desc(vec![("script.py", file_desc("0", 55))])),
        ("test1.txt", file_desc("55", 21)),
        ("broken", file_desc("nope", 3)),
    ]);
    let mut writes = Vec::new();
    assert!(write_to_asar(&header, &text("src"), 100, &mut writes));
    assert_eq!(
        writes,
        vec![(text("src/folder1/script.py"), 100, 55), (text("src/test1.txt"), 155, 21)]
    );
    let mut none = Vec::new();
    assert!(!write_to_asar(&JsonValue::Null, &text("src"), 0, &mut none));
    assert!(none.is_empty());
}

#[test]
fn value_of_a_directory_advances_the_offset() {
    let mut offset: u64 = 7;
    let value = gen_value_from_dir(&sample_dir(), &mut offset);
    assert_eq!(offset, 7 + 55 + 29968 + 21);
    let tree = Content::new_json(value).unwrap();
    assert_eq!(*tree.find("test1.txt").unwrap(), Content::File(text("test1.txt"), 7 + 30023, 21));
}

#[test]
fn data_region_is_the_files_back_to_back() {
    let a: Vec<u8> = (0u8..10).collect();
    let b: Vec<u8> = vec![200, 201, 202, 203, 204];
    let region = data_region(&vec![a.clone(), b.clone()]);
    assert_eq!(region.len(), 15);
    assert_eq!(&region[0..10], &a[..]);
    assert_eq!(&region[10..15], &b[..]);
    assert!(data_region(&vec![]).is_empty());
}

#[test]
fn find_reaches_nested_files_with_their_record() {
    let header = folder_desc(vec![(
        "a",
        folder_desc(vec![("b", folder_desc(vec![("c.bin", file_desc("+0042", 7))]))]),
    )]);
    let tree = Content::new_json(header).unwrap();
    assert_eq!(*tree.find("a/b/c.bin").unwrap(), Content::File(text("c.bin"), 42, 7));
    assert!(tree.find("a/b/c.bin/d").is_none());
}
