use std::io::{Read, Write};
use tempfile::NamedTempFile;
use tinyvm::htab::{tvm_htab_add, tvm_htab_add_ref, tvm_htab_create, tvm_htab_find_ref, HashTable};
use tinyvm::preprocessing::{
    define_is_storable, parse_define, preprocess, process_defines, process_includes,
    process_line_starting_with_directive, PreprocessingError, Progress,
};

fn no_file(path: &str) -> Result<String, std::io::Error> {
    panic!("no file should be read, but {:?} was asked for", path)
}

fn missing(_path: &str) -> Result<String, std::io::Error> {
    Err(std::io::Error::new(std::io::ErrorKind::NotFound, "no such file"))
}

/// Calls the preprocessor again for as long as it is pending, as a host does.
fn run<F>(src: &str, defines: &mut HashTable, read_file: F) -> Result<String, PreprocessingError>
where
    F: Fn(&str) -> Result<String, std::io::Error>,
{
    let mut src = String::from(src);
    loop {
        match preprocess(src, defines, |path: &str| read_file(path))? {
            Progress::Done(text) => return Ok(text),
            Progress::Pending(text) => src = text,
            Progress::BadKey(text) => panic!("key with a NUL in {:?}", text),
        }
    }
}

fn opaque_text(defines: &HashTable, key: &str) -> Option<String> {
    tvm_htab_find_ref(defines, key.as_bytes()).map(|bytes| String::from_utf8(bytes.to_vec()).unwrap())
}

#[test]
fn empty_string() {
    let src = String::from("");
    let mut hashtable = HashTable::default();

    let (got, replacements) = process_defines(src, &mut hashtable).unwrap();

    assert!(got.is_empty());
    assert_eq!(replacements, 0);
    assert!(hashtable.is_empty());
}

#[test]
fn false_percent() {
    let src = String::from("this string contains a % symbol");
    let mut hashtable = HashTable::default();

    let (got, replacements) = process_defines(src.clone(), &mut hashtable).unwrap();

    assert_eq!(got, src);
    assert_eq!(replacements, 0);
    assert!(hashtable.is_empty());
}

#[test]
fn define_without_key_and_value() {
    let src = String::from("%define\n");
    let mut hashtable = HashTable::default();

    let err = process_defines(src.clone(), &mut hashtable).unwrap_err();

    match err {
        PreprocessingError::EmptyDefine => {},
        other => panic!("Expected EmptyDefine, found {:?}", other),
    }
}

#[test]
fn define_without_value() {
    let src = String::from("%define key\n");
    let mut hashtable = HashTable::default();

    let err = process_defines(src.clone(), &mut hashtable).unwrap_err();

    match err {
        PreprocessingError::DefineWithoutValue(key) => {
            assert_eq!(key, "key")
        },
        other => panic!("Expected DefineWithoutValue, found {:?}", other),
    }
}

#[test]
fn valid_define() {
    let src = String::from("%define key value\n");
    let mut hashtable = HashTable::default();

    let (got, num_defines) = process_defines(src.clone(), &mut hashtable).unwrap();

    assert_eq!(got, "\n");
    assert_eq!(num_defines, 1);
    assert_eq!(hashtable.len(), 1);
    let item = hashtable.get(b"key").unwrap();
    assert_eq!(item.opaque_value_str().unwrap(), "value");
}

#[test]
fn find_all_defines() {
    let src = String::from("%define true 1\nsome random text\n%define FOO_BAR -42\n");
    let mut defines = tvm_htab_create();

    let ret = preprocess(src, &mut defines, no_file);

    // preprocessing should have been successful
    let preprocessed = match ret {
        Ok(Progress::Done(text)) => text,
        other => panic!("Expected Done, found {:?}", other),
    };

    // make sure the define lines were removed
    assert_eq!(preprocessed, "\nsome random text\n\n");

    // make sure the "true" and "FOO_BAR" defines were set
    let true_define = tvm_htab_find_ref(&defines, b"true").unwrap();
    assert_eq!(std::str::from_utf8(true_define).unwrap(), "1");
    let foo_bar = tvm_htab_find_ref(&defines, b"FOO_BAR").unwrap();
    assert_eq!(std::str::from_utf8(foo_bar).unwrap(), "-42");
    assert_eq!(defines.len(), 2);
}

#[test]
fn include_another_file() {
    const TOP_LEVEL: &str = "first line\n%include nested\nlast line\n";
    const NESTED: &str = "nested";

    // the preprocessor imports files from the filesystem, so we need to
    // copy NESTED to a temporary location
    let mut nested = NamedTempFile::new().unwrap();
    nested.write_all(NESTED.as_bytes()).unwrap();
    nested.flush().unwrap();
    let nested_filename = nested.path().display().to_string();

    // substitute the full path to the "nested" file
    let top_level_src = TOP_LEVEL.replace("nested", &nested_filename);
    let mut defines = tvm_htab_create();

    let got = run(&top_level_src, &mut defines, |path| {
        assert_eq!(path, nested_filename);
        let mut contents = String::new();
        nested.reopen()?.read_to_string(&mut contents)?;
        Ok(contents)
    })
    .unwrap();

    // after preprocessing, all include and define lines should have
    // been removed
    assert_eq!(got, "first line\nnested\nlast line\n");
    assert!(defines.is_empty());
}

#[test]
fn text_without_directives_is_returned_unchanged() {
    let src = "mov eax, 42\n% include not\n%defin e\n\tpush eax # 100%\n";
    let mut defines = HashTable::new();
    tvm_htab_add(&mut defines, b"kept", 7);

    let (got, count) = process_includes(String::from(src), no_file).unwrap();
    assert_eq!((got.as_str(), count), (src, 0));
    let (got, count) = process_defines(String::from(src), &mut defines).unwrap();
    assert_eq!((got.as_str(), count), (src, 0));

    match preprocess(String::from(src), &mut defines, no_file) {
        Ok(Progress::Done(text)) => assert_eq!(text, src),
        other => panic!("Expected Done, found {:?}", other),
    }
    assert_eq!(defines.len(), 1);
    assert_eq!(tinyvm::htab::tvm_htab_find(&defines, b"kept"), 7);
}

#[test]
fn preprocessing_the_result_again_changes_nothing() {
    let mut defines = HashTable::new();
    let first = run("%define a 1\nline\n%define b 2\n", &mut defines, no_file).unwrap();
    assert_eq!(first, "\nline\n\n");
    let before = defines.clone();

    let second = run(&first, &mut defines, no_file).unwrap();

    assert_eq!(second, first);
    assert_eq!(defines.len(), before.len());
    assert_eq!(opaque_text(&defines, "a").as_deref(), Some("1"));
    assert_eq!(opaque_text(&defines, "b").as_deref(), Some("2"));
}

#[test]
fn duplicate_define_is_refused_and_first_definition_stays() {
    let mut defines = HashTable::new();

    let err = run("%define a 1\n%define a 2\n", &mut defines, no_file).unwrap_err();

    match err {
        PreprocessingError::DuplicateDefine { name, original_value, new_value } => {
            assert_eq!(name, "a");
            assert_eq!(original_value, "1");
            assert_eq!(new_value, "2");
        },
        other => panic!("Expected DuplicateDefine, found {:?}", other),
    }
    assert_eq!(defines.len(), 1);
    assert_eq!(opaque_text(&defines, "a").as_deref(), Some("1"));
}

#[test]
fn duplicate_of_an_integer_entry_shows_an_empty_value() {
    let mut defines = HashTable::new();
    tvm_htab_add(&mut defines, b"answer", 42);

    let err = parse_define("answer 43", &mut defines).unwrap_err();

    match err {
        PreprocessingError::DuplicateDefine { name, original_value, new_value } => {
            assert_eq!(name, "answer");
            assert_eq!(original_value, "");
            assert_eq!(new_value, "43");
        },
        other => panic!("Expected DuplicateDefine, found {:?}", other),
    }
    assert_eq!(tinyvm::htab::tvm_htab_find(&defines, b"answer"), 42);
}

#[test]
fn duplicate_of_bytes_that_are_no_text_shows_invalid() {
    let mut defines = HashTable::new();
    tvm_htab_add_ref(&mut defines, b"blob", Some(&[0xff, 0xfe, 0x00][..]));

    let err = parse_define("blob text", &mut defines).unwrap_err();

    match err {
        PreprocessingError::DuplicateDefine { name, original_value, new_value } => {
            assert_eq!(name, "blob");
            assert_eq!(original_value, "<invalid>");
            assert_eq!(new_value, "text");
        },
        other => panic!("Expected DuplicateDefine, found {:?}", other),
    }
}

#[test]
fn parse_define_splits_at_the_first_space() {
    let mut defines = HashTable::new();

    parse_define("key   some value  with spaces", &mut defines).unwrap();
    parse_define("tab\tbed x", &mut defines).unwrap();

    assert_eq!(opaque_text(&defines, "key").as_deref(), Some("some value  with spaces"));
    assert_eq!(opaque_text(&defines, "tab\tbed").as_deref(), Some("x"));
    assert_eq!(defines.len(), 2);
}

#[test]
fn parse_define_errors() {
    let mut defines = HashTable::new();

    assert!(matches!(parse_define("", &mut defines), Err(PreprocessingError::EmptyDefine)));
    match parse_define("key\tvalue", &mut defines) {
        Err(PreprocessingError::DefineWithoutValue(key)) => assert_eq!(key, "key\tvalue"),
        other => panic!("Expected DefineWithoutValue, found {:?}", other),
    }
    assert!(defines.is_empty());
}

#[test]
fn directive_in_the_middle_of_a_line_keeps_what_stands_before_it() {
    let mut defines = HashTable::new();

    let (got, count) =
        process_defines(String::from("a\nkeep %define  \t k   v \t\nrest"), &mut defines).unwrap();

    assert_eq!(got, "a\nkeep \nrest");
    assert_eq!(count, 1);
    assert_eq!(opaque_text(&defines, "k").as_deref(), Some("v"));
}

#[test]
fn directive_on_the_last_line_without_a_line_feed() {
    let mut defines = HashTable::new();

    let (got, count) = process_defines(String::from("x\n%define k v"), &mut defines).unwrap();

    assert_eq!(got, "x\n");
    assert_eq!(count, 1);
    assert_eq!(opaque_text(&defines, "k").as_deref(), Some("v"));
}

#[test]
fn only_the_first_directive_is_resolved_by_one_step() {
    let mut defines = HashTable::new();

    let (got, count) =
        process_defines(String::from("%define a 1\n%define b 2\n"), &mut defines).unwrap();

    assert_eq!(got, "\n%define b 2\n");
    assert_eq!(count, 1);
    assert_eq!(defines.len(), 1);
}

#[test]
fn characters_of_several_bytes_do_not_shift_the_cut() {
    let mut defines = HashTable::new();

    let (got, count) = process_defines(
        String::from("h\u{e9}llo \u{1f600} %define cl\u{e9} \u{3000}w\u{f6}rt\u{a0}\n\u{4e16}\u{754c}\n"),
        &mut defines,
    )
    .unwrap();

    assert_eq!(got, "h\u{e9}llo \u{1f600} \n\u{4e16}\u{754c}\n");
    assert_eq!(count, 1);
    assert_eq!(opaque_text(&defines, "cl\u{e9}").as_deref(), Some("w\u{f6}rt"));
}

#[test]
fn scanner_hands_the_trimmed_payload_to_the_callback() {
    let (got, count) = process_line_starting_with_directive(
        String::from("one\ntwo @here \t payload text \r\nthree\n"),
        "@here",
        |line: &str| {
            assert_eq!(line, "payload text");
            Ok(format!("<{}>", line))
        },
    )
    .unwrap();

    assert_eq!(got, "one\ntwo <payload text>\nthree\n");
    assert_eq!(count, 1);
}

#[test]
fn scanner_without_an_occurrence_does_not_call_back() {
    let (got, count) = process_line_starting_with_directive(
        String::from("nothing here"),
        "@here",
        |line: &str| panic!("called with {:?}", line),
    )
    .unwrap();

    assert_eq!(got, "nothing here");
    assert_eq!(count, 0);
}

#[test]
fn scanner_passes_the_error_of_the_callback_on() {
    let err = process_line_starting_with_directive(
        String::from("a @here b\n"),
        "@here",
        |line: &str| Err(PreprocessingError::DefineWithoutValue(line.to_string())),
    )
    .unwrap_err();

    match err {
        PreprocessingError::DefineWithoutValue(key) => assert_eq!(key, "b"),
        other => panic!("Expected DefineWithoutValue, found {:?}", other),
    }
}

#[test]
fn scanner_with_an_empty_directive_replaces_the_first_line() {
    let (got, count) =
        process_line_starting_with_directive(String::from("  first  \nsecond"), "", |line: &str| {
            assert_eq!(line, "first");
            Ok(String::from("1"))
        })
        .unwrap();

    assert_eq!(got, "1\nsecond");
    assert_eq!(count, 1);
}

#[test]
fn include_puts_the_contents_in_place_unchanged() {
    let (got, count) = process_includes(
        String::from("first line\n  %include  some/path.vm  \nlast line\n"),
        |path: &str| {
            assert_eq!(path, "some/path.vm");
            Ok(String::from("%define inner 1\n%include other\n"))
        },
    )
    .unwrap();

    assert_eq!(got, "first line\n  %define inner 1\n%include other\n\nlast line\n");
    assert_eq!(count, 1);
}

#[test]
fn failed_include_carries_the_path_and_the_cause() {
    let err = process_includes(String::from("%include  gone.vm \nrest\n"), missing).unwrap_err();

    match err {
        PreprocessingError::FailedInclude { name, inner } => {
            assert_eq!(name, "gone.vm");
            assert_eq!(inner.kind(), std::io::ErrorKind::NotFound);
        },
        other => panic!("Expected FailedInclude, found {:?}", other),
    }
}

#[test]
fn failed_include_keeps_what_was_defined_before() {
    let mut defines = HashTable::new();

    let err = run("%define a 1\n%define b 2\n%include gone\n", &mut defines, |path| {
        if path == "first" {
            Ok(String::from("%define c 3\n"))
        } else {
            missing(path)
        }
    })
    .unwrap_err();

    assert!(matches!(err, PreprocessingError::FailedInclude { .. }));
    assert!(defines.is_empty());

    let err = run("%include first\n%include gone\n", &mut defines, |path| {
        if path == "first" {
            Ok(String::from("%define c 3\n"))
        } else {
            missing(path)
        }
    })
    .unwrap_err();

    match err {
        PreprocessingError::FailedInclude { name, .. } => assert_eq!(name, "gone"),
        other => panic!("Expected FailedInclude, found {:?}", other),
    }
    assert_eq!(opaque_text(&defines, "c").as_deref(), Some("3"));
}

#[test]
fn directives_of_an_included_file_are_resolved_in_later_rounds() {
    let mut defines = HashTable::new();

    let got = run("%define top 1\n%include outer\nend\n", &mut defines, |path| match path {
        "outer" => Ok(String::from("%define outer 2\n%include inner\n")),
        "inner" => Ok(String::from("%define inner 3\ninnermost")),
        other => panic!("unexpected path {:?}", other),
    })
    .unwrap();

    assert_eq!(got, "\n\n\ninnermost\n\nend\n");
    assert_eq!(defines.len(), 3);
    assert_eq!(opaque_text(&defines, "top").as_deref(), Some("1"));
    assert_eq!(opaque_text(&defines, "outer").as_deref(), Some("2"));
    assert_eq!(opaque_text(&defines, "inner").as_deref(), Some("3"));
}

#[test]
fn one_call_reads_one_file_and_goes_as_far_as_the_next_include() {
    let mut defines = HashTable::new();

    let progress = preprocess(
        String::from("%define a 1\n%include one\n%define b 2\n%include two\n%define c 3\n"),
        &mut defines,
        |path: &str| {
            assert_eq!(path, "one");
            Ok(String::from("1"))
        },
    )
    .unwrap();

    match progress {
        Progress::Pending(text) => assert_eq!(text, "\n1\n%define b 2\n%include two\n%define c 3\n"),
        other => panic!("Expected Pending, found {:?}", other),
    }
    assert_eq!(defines.len(), 1);

    let progress = preprocess(
        String::from("\n1\n%define b 2\n%include two\n%define c 3\n"),
        &mut defines,
        |path: &str| {
            assert_eq!(path, "two");
            Ok(String::from("2"))
        },
    )
    .unwrap();

    match progress {
        Progress::Done(text) => assert_eq!(text, "\n1\n\n2\n\n"),
        other => panic!("Expected Done, found {:?}", other),
    }
    assert_eq!(defines.len(), 3);
}

#[test]
fn key_with_a_nul_is_reported_and_not_stored() {
    let mut defines = HashTable::new();
    let src = "%define ok 1\n%define a\0b 2\n";

    assert!(define_is_storable(src));
    assert!(!define_is_storable("x %define a\0b 2\n"));
    assert!(define_is_storable("%define ab \0\n"));
    assert!(define_is_storable("%define a\0b\n"));
    assert!(define_is_storable("no directive \0"));

    match preprocess(String::from(src), &mut defines, no_file) {
        Ok(Progress::BadKey(text)) => assert_eq!(text, "\n%define a\0b 2\n"),
        other => panic!("Expected BadKey, found {:?}", other),
    }
    assert_eq!(defines.len(), 1);
    assert_eq!(opaque_text(&defines, "ok").as_deref(), Some("1"));
}

#[test]
fn include_inside_a_define_is_resolved_before_the_define() {
    let mut defines = HashTable::new();

    let got = run("%define inc %include file\nnext\n", &mut defines, |path| {
        assert_eq!(path, "file");
        Ok(String::from("value"))
    })
    .unwrap();

    assert_eq!(got, "\nnext\n");
    assert_eq!(opaque_text(&defines, "inc").as_deref(), Some("value"));
}

#[test]
fn payload_of_nothing_but_whitespace_is_empty() {
    let mut defines = HashTable::new();

    let err = process_defines(String::from("%define \t \u{a0}\nrest"), &mut defines).unwrap_err();
    assert!(matches!(err, PreprocessingError::EmptyDefine));

    let (got, count) = process_includes(String::from("a %include  \nb"), |path: &str| {
        assert_eq!(path, "");
        Ok(String::from("x\ny"))
    })
    .unwrap();
    assert_eq!(got, "a x\ny\nb");
    assert_eq!(count, 1);
}

#[test]
fn failed_include_ends_the_call_with_the_text_unresolved() {
    let mut defines = HashTable::new();
    tvm_htab_add(&mut defines, b"kept", 1);

    let err = preprocess(String::from("%define a 1\n%include gone\n"), &mut defines, missing)
        .unwrap_err();

    match err {
        PreprocessingError::FailedInclude { name, inner } => {
            assert_eq!(name, "gone");
            assert_eq!(inner.to_string(), "no such file");
        },
        other => panic!("Expected FailedInclude, found {:?}", other),
    }
    assert_eq!(defines.len(), 1);
    assert!(!defines.contains_key(b"a"));
}
