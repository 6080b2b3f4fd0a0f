//! The preprocessor: one directive line at a time, the first `%include` of a
//! text gives way to the file that it names, and the first `%define` is
//! recorded in the table of definitions and leaves an empty line behind.

use crate::htab::{lemma_text_without_nul_is_key, Entry, HashTable, Item};
use crate::text::{
    chars_of, contains_pattern, find_char, find_char_between, find_line_end, find_pattern,
    first_index_of, first_occurrence, lemma_first_occurrence_at, lemma_first_occurrence_exists,
    lemma_line_end_bounds, line_end, splice, trim, trim_bounds,
};
use vstd::prelude::*;
use vstd::string::*;
use vstd::utf8::*;

verus! {

/// `std::io::Error`, the error that reading a file fails with. Nothing is
/// claimed of a value of it: it is only carried from the reader to the caller.
#[verifier::external_type_specification]
#[verifier::external_body]
pub struct ExIoError(std::io::Error);

/// Why a text could not be preprocessed.
#[derive(Debug)]
pub enum PreprocessingError {
    /// The file that an `%include` names could not be read.
    FailedInclude { name: String, inner: std::io::Error },
    /// A `%define` names a key that the table already holds.
    DuplicateDefine { name: String, original_value: String, new_value: String },
    /// A `%define` with nothing after it.
    EmptyDefine,
    /// A `%define` with a key and no value.
    DefineWithoutValue(String),
}

/// A `PreprocessingError` with its texts as sequences of characters.
pub enum PreprocessingErrorView {
    FailedInclude { name: Seq<char>, inner: std::io::Error },
    DuplicateDefine { name: Seq<char>, original_value: Seq<char>, new_value: Seq<char> },
    EmptyDefine,
    DefineWithoutValue(Seq<char>),
}

impl View for PreprocessingError {
    type V = PreprocessingErrorView;

    open spec fn view(&self) -> PreprocessingErrorView {
        match self {
            PreprocessingError::FailedInclude { name, inner } => {
                PreprocessingErrorView::FailedInclude { name: name@, inner: *inner }
            },
            PreprocessingError::DuplicateDefine { name, original_value, new_value } => {
                PreprocessingErrorView::DuplicateDefine {
                    name: name@,
                    original_value: original_value@,
                    new_value: new_value@,
                }
            },
            PreprocessingError::EmptyDefine => PreprocessingErrorView::EmptyDefine,
            PreprocessingError::DefineWithoutValue(key) => {
                PreprocessingErrorView::DefineWithoutValue(key@)
            },
        }
    }
}

/// The token that opens a directive to splice a file in.
pub open spec fn include_token() -> Seq<char> {
    "%include"@
}

/// The token that opens a directive to record a definition.
pub open spec fn define_token() -> Seq<char> {
    "%define"@
}

/// Where the line of the first `directive` of `text` ends: at the first
/// line feed after the token, or at the end of the text.
pub open spec fn directive_end(text: Seq<char>, directive: Seq<char>) -> int {
    line_end(text, first_occurrence(text, directive))
}

/// What the first `directive` of `text` is given: the rest of its line
/// after the token, without the whitespace around it.
pub open spec fn directive_payload(text: Seq<char>, directive: Seq<char>) -> Seq<char> {
    trim(
        text.subrange(
            first_occurrence(text, directive) + directive.len(),
            directive_end(text, directive),
        ),
    )
}

/// `text` with `replacement` in place of its first `directive` and the rest
/// of that line. What stands before the token on its line stays, and so does
/// the line feed.
pub open spec fn replace_directive_line(
    text: Seq<char>,
    directive: Seq<char>,
    replacement: Seq<char>,
) -> Seq<char> {
    text.subrange(0, first_occurrence(text, directive)) + replacement + text.subrange(
        directive_end(text, directive),
        text.len() as int,
    )
}

/// The line of a directive that holds no line feed reaches at least to the
/// end of its token.
pub proof fn lemma_directive_line_bounds(text: Seq<char>, directive: Seq<char>)
    requires
        contains_pattern(text, directive),
        !directive.contains('\n'),
    ensures
        0 <= first_occurrence(text, directive),
        first_occurrence(text, directive) + directive.len() <= directive_end(text, directive),
        directive_end(text, directive) <= text.len(),
{
    lemma_first_occurrence_exists(text, directive);
    let start = first_occurrence(text, directive);
    let end = directive_end(text, directive);
    lemma_line_end_bounds(text, start);
    if end < start + directive.len() {
        assert(directive[end - start] == '\n');
    }
}

/// Where the first `directive` of a text stands, and where what it is given
/// stands.
struct DirectiveLine {
    start: usize,
    end: usize,
    payload_start: usize,
    payload_end: usize,
}

/// Finds the first `directive` in `text`, the end of its line, and the
/// bounds of its payload.
fn locate_directive(text: &Vec<char>, directive: &Vec<char>) -> (r: Option<DirectiveLine>)
    requires
        !directive@.contains('\n'),
    ensures
        r is Some <==> contains_pattern(text@, directive@),
        r matches Some(line) ==> {
            &&& line.start == first_occurrence(text@, directive@)
            &&& line.end == directive_end(text@, directive@)
            &&& line.start + directive@.len() <= line.payload_start <= line.payload_end
                <= line.end <= text@.len()
            &&& text@.subrange(line.payload_start as int, line.payload_end as int)
                == directive_payload(text@, directive@)
        },
{
    match find_pattern(text, directive) {
        None => None,
        Some(start) => {
            proof {
                lemma_first_occurrence_at(text@, directive@, start as int);
                lemma_directive_line_bounds(text@, directive@);
            }
            let end = find_line_end(text, start);
            let (payload_start, payload_end) = trim_bounds(text, start + directive.len(), end);
            Some(DirectiveLine { start, end, payload_start, payload_end })
        },
    }
}

/// Whether `r` is what becomes of `src` once the callback has made `answer`
/// of the payload of its first `directive`: the text with the replacement in
/// place of the directive line, and one substitution, or the error of the
/// callback as it is.
pub open spec fn is_line_replaced(
    src: Seq<char>,
    directive: Seq<char>,
    answer: Result<String, PreprocessingError>,
    r: Result<(String, usize), PreprocessingError>,
) -> bool {
    match answer {
        Ok(replacement) => r matches Ok(done) && done.1 == 1 && done.0@
            == replace_directive_line(src, directive, replacement@),
        Err(error) => r == Err::<(String, usize), _>(error),
    }
}

/// Finds the first `directive` in `src` and replaces it, with the rest of
/// its line, by what `replace_line` makes of its payload. Returns the new
/// text and 1, or `src` and 0 where the directive does not occur. Fails where
/// `replace_line` fails, with its error.
pub fn process_line_starting_with_directive<F>(src: String, directive: &str, replace_line: F) -> (r:
    Result<(String, usize), PreprocessingError>) where
    F: FnOnce(&str) -> Result<String, PreprocessingError>,

    requires
        !directive@.contains('\n'),
        contains_pattern(src@, directive@) ==> forall|line: &str|
            line@ == directive_payload(src@, directive@) ==> replace_line.requires((line,)),
    ensures
        !contains_pattern(src@, directive@) ==> r == Ok::<_, PreprocessingError>((src, 0usize)),
        contains_pattern(src@, directive@) ==> (exists|
            line: &str,
            answer: Result<String, PreprocessingError>,
        |
            line@ == directive_payload(src@, directive@) && replace_line.ensures((line,), answer)
                && is_line_replaced(src@, directive@, answer, r)),
{
    let text = chars_of(src.as_str());
    let pattern = chars_of(directive);
    match locate_directive(&text, &pattern) {
        None => Ok((src, 0)),
        Some(found) => {
            let line = src.as_str().substring_char(found.payload_start, found.payload_end);
            let answer = replace_line(line);
            match answer {
                Ok(replacement) => {
                    let out = splice(src.as_str(), found.start, found.end, replacement.as_str());
                    Ok((out, 1))
                },
                Err(error) => Err(error),
            }
        },
    }
}

/// What a resolver hands back, with its texts as sequences of characters:
/// the new text and the number of substitutions made, or the error.
pub open spec fn outcome_view(r: Result<(String, usize), PreprocessingError>) -> Result<
    (Seq<char>, nat),
    PreprocessingErrorView,
> {
    match r {
        Ok(done) => Ok((done.0@, done.1 as nat)),
        Err(error) => Err(error@),
    }
}

/// What reading a file gave, with the contents as a sequence of characters.
pub open spec fn file_view(answer: Result<String, std::io::Error>) -> Result<
    Seq<char>,
    std::io::Error,
> {
    match answer {
        Ok(contents) => Ok(contents@),
        Err(error) => Err(error),
    }
}

/// What resolving the first `%include` of `src` gives, where reading the
/// file that it names gave `file`: the contents of the file stand in place
/// of the directive line, unchanged, or the failure to read is the error. A
/// text without `%include` stays as it is, and `file` is not looked at.
pub open spec fn include_step(src: Seq<char>, file: Result<Seq<char>, std::io::Error>) -> Result<
    (Seq<char>, nat),
    PreprocessingErrorView,
> {
    if !contains_pattern(src, include_token()) {
        Ok((src, 0nat))
    } else {
        match file {
            Ok(contents) => Ok((replace_directive_line(src, include_token(), contents), 1nat)),
            Err(error) => Err(
                PreprocessingErrorView::FailedInclude {
                    name: directive_payload(src, include_token()),
                    inner: error,
                },
            ),
        }
    }
}

proof fn lemma_tokens_hold_no_line_feed()
    ensures
        !include_token().contains('\n'),
        !define_token().contains('\n'),
        include_token().len() == 8,
        define_token().len() == 7,
{
    reveal_strlit("%include");
    reveal_strlit("%define");
}

/// Resolves the first `%include` of `src`: asks `read_file` for the file
/// that the directive names and puts its contents, as they are, in place of
/// the directive line. Returns the new text and 1, or `src` and 0 where it
/// holds no `%include`. Where `read_file` fails, the error holds the path
/// and what `read_file` gave.
pub fn process_includes<R>(src: String, read_file: R) -> (r: Result<
    (String, usize),
    PreprocessingError,
>) where R: FnOnce(&str) -> Result<String, std::io::Error>
    requires
        contains_pattern(src@, include_token()) ==> forall|path: &str|
            path@ == directive_payload(src@, include_token()) ==> read_file.requires((path,)),
    ensures
        !contains_pattern(src@, include_token()) ==> r == Ok::<_, PreprocessingError>(
            (src, 0usize),
        ),
        contains_pattern(src@, include_token()) ==> (exists|
            path: &str,
            answer: Result<String, std::io::Error>,
        |
            path@ == directive_payload(src@, include_token()) && read_file.ensures(
                (path,),
                answer,
            ) && outcome_view(r) == include_step(src@, file_view(answer))),
{
    proof {
        lemma_tokens_hold_no_line_feed();
    }
    let replace_line = move |path: &str| -> (replacement: Result<String, PreprocessingError>)
        requires
            read_file.requires((path,)),
        ensures
            exists|answer: Result<String, std::io::Error>|
                {
                    &&& read_file.ensures((path,), answer)
                    &&& match answer {
                        Ok(contents) => replacement == Ok::<_, PreprocessingError>(contents),
                        Err(error) => replacement matches Err(
                            PreprocessingError::FailedInclude { name, inner },
                        ) && name@ == path@ && inner == error,
                    }
                },
        {
            match read_file(path) {
                Ok(contents) => Ok(contents),
                Err(error) => Err(
                    PreprocessingError::FailedInclude { name: path.to_owned(), inner: error },
                ),
            }
        };
    process_line_starting_with_directive(src, "%include", replace_line)
}

/// The key that the payload `line` of a `%define` names: what stands
/// before its first space.
pub open spec fn define_key(line: Seq<char>) -> Seq<char> {
    line.subrange(0, first_index_of(line, ' '))
}

/// The value that the payload `line` of a `%define` gives its key: what
/// stands after the key, without the whitespace around it.
pub open spec fn define_value(line: Seq<char>) -> Seq<char> {
    trim(line.subrange(first_index_of(line, ' '), line.len() as int))
}

/// How the value of an entry is shown where a second definition of its key
/// is refused: as the text that its bytes encode, or as `<invalid>` where
/// they encode none.
pub open spec fn shown_value(entry: Entry) -> Seq<char> {
    match entry.opaque_value_str() {
        Some(text) => text,
        None => "<invalid>"@,
    }
}

/// Whether the table can hold the key that the payload `line` names: the
/// key holds no NUL. A payload that names no key can always be handled.
pub open spec fn is_storable_define(line: Seq<char>) -> bool {
    line.contains(' ') ==> !define_key(line).contains('\0')
}

/// What the payload `line` of a `%define` does to a table that holds
/// `store`: an empty payload and one without a space are errors, and so is a
/// key that the table holds already, whatever its entry; any other key gets
/// its value, as UTF-8, for an opaque entry.
pub open spec fn define_line(line: Seq<char>, store: Map<Seq<u8>, Entry>) -> Result<
    Map<Seq<u8>, Entry>,
    PreprocessingErrorView,
> {
    if line.len() == 0 {
        Err(PreprocessingErrorView::EmptyDefine)
    } else if !line.contains(' ') {
        Err(PreprocessingErrorView::DefineWithoutValue(line))
    } else {
        let key = encode_utf8(define_key(line));
        if store.contains_key(key) {
            Err(
                PreprocessingErrorView::DuplicateDefine {
                    name: define_key(line),
                    original_value: shown_value(store[key]),
                    new_value: define_value(line),
                },
            )
        } else {
            Ok(store.insert(key, Entry::Opaque(encode_utf8(define_value(line)))))
        }
    }
}

/// A definition reads back as it was made: once the payload `line` has been
/// recorded, the entry under its key is the text of its value, and that text
/// is what a second definition of the key would be shown as the first.
pub proof fn lemma_definition_reads_back(line: Seq<char>, store: Map<Seq<u8>, Entry>)
    ensures
        define_line(line, store) matches Ok(after) ==> {
            &&& after.contains_key(encode_utf8(define_key(line)))
            &&& after[encode_utf8(define_key(line))].opaque_value_str() == Some(
                define_value(line),
            )
            &&& shown_value(after[encode_utf8(define_key(line))]) == define_value(line)
            &&& define_line(line, after) == Err::<Map<Seq<u8>, Entry>, _>(
                PreprocessingErrorView::DuplicateDefine {
                    name: define_key(line),
                    original_value: define_value(line),
                    new_value: define_value(line),
                },
            )
        },
{
    encode_utf8_valid_utf8(define_value(line));
    encode_utf8_decode_utf8(define_value(line));
}

/// Records the definition that the payload `line` of a `%define` makes.
/// On an error the table stays as it was.
pub fn parse_define(line: &str, defines: &mut HashTable) -> (r: Result<(), PreprocessingError>)
    requires
        is_storable_define(line@),
    ensures
        match define_line(line@, old(defines)@) {
            Ok(after) => r is Ok && final(defines)@ == after,
            Err(error) => r matches Err(e) && e@ == error && final(defines)@ == old(defines)@,
        },
{
    if line.is_empty() {
        return Err(PreprocessingError::EmptyDefine);
    }
    let text = chars_of(line);
    let first_space = find_char(&text, ' ');
    if first_space == text.len() {
        return Err(PreprocessingError::DefineWithoutValue(line.to_owned()));
    }
    let key = line.substring_char(0, first_space);
    proof {
        lemma_text_without_nul_is_key(key@);
    }
    let (value_start, value_end) = trim_bounds(&text, first_space, text.len());
    let value = line.substring_char(value_start, value_end);
    match defines.get(key.as_bytes()) {
        Some(item) => {
            let original_value = match item.opaque_value_str() {
                Some(shown) => shown,
                None => "<invalid>",
            };
            Err(
                PreprocessingError::DuplicateDefine {
                    name: key.to_owned(),
                    original_value: original_value.to_owned(),
                    new_value: value.to_owned(),
                },
            )
        },
        None => {
            defines.insert(key.as_bytes(), Item::opaque(value.as_bytes_vec()));
            Ok(())
        },
    }
}

/// Whether the table can hold the key that the first `%define` of `src`
/// names. A text without `%define` can always be handled.
pub open spec fn next_define_is_storable(src: Seq<char>) -> bool {
    contains_pattern(src, define_token()) ==> is_storable_define(
        directive_payload(src, define_token()),
    )
}

/// What resolving the first `%define` of `src` gives, with a table that
/// holds `store`: the result, and what the table holds afterwards. The
/// definition is recorded and the directive line is emptied, or the error of
/// the definition is the result and the table stays as it was. A text without
/// `%define` stays as it is.
pub open spec fn define_step(src: Seq<char>, store: Map<Seq<u8>, Entry>) -> (
    Result<(Seq<char>, nat), PreprocessingErrorView>,
    Map<Seq<u8>, Entry>,
) {
    if !contains_pattern(src, define_token()) {
        (Ok((src, 0nat)), store)
    } else {
        match define_line(directive_payload(src, define_token()), store) {
            Ok(after) => (
                Ok((replace_directive_line(src, define_token(), Seq::empty()), 1nat)),
                after,
            ),
            Err(error) => (Err(error), store),
        }
    }
}

/// Whether the table can hold the key that the first `%define` of `src`
/// names.
pub fn define_is_storable(src: &str) -> (r: bool)
    ensures
        r == next_define_is_storable(src@),
{
    proof {
        lemma_tokens_hold_no_line_feed();
    }
    let text = chars_of(src);
    let pattern = chars_of("%define");
    match locate_directive(&text, &pattern) {
        None => true,
        Some(found) => {
            let first_space = find_char_between(
                &text,
                ' ',
                found.payload_start,
                found.payload_end,
            );
            let key_end = find_char_between(&text, '\0', found.payload_start, first_space);
            proof {
                let payload = text@.subrange(
                    found.payload_start as int,
                    found.payload_end as int,
                );
                assert(define_key(payload) =~= text@.subrange(
                    found.payload_start as int,
                    first_space as int,
                ));
            }
            first_space == found.payload_end || key_end == first_space
        },
    }
}

/// Resolves the first `%define` of `src`: records its definition in
/// `defines` and empties the directive line. Returns the new text and 1, or
/// `src` and 0 where it holds no `%define`.
pub fn process_defines(src: String, defines: &mut HashTable) -> (r: Result<
    (String, usize),
    PreprocessingError,
>)
    requires
        next_define_is_storable(src@),
    ensures
        (outcome_view(r), final(defines)@) == define_step(src@, old(defines)@),
        !contains_pattern(src@, define_token()) ==> r == Ok::<_, PreprocessingError>(
            (src, 0usize),
        ),
{
    proof {
        lemma_tokens_hold_no_line_feed();
    }
    let text = chars_of(src.as_str());
    let pattern = chars_of("%define");
    match locate_directive(&text, &pattern) {
        None => Ok((src, 0)),
        Some(found) => {
            let line = src.as_str().substring_char(found.payload_start, found.payload_end);
            match parse_define(line, defines) {
                Ok(()) => {
                    let out = splice(src.as_str(), found.start, found.end, "");
                    proof {
                        reveal_strlit("");
                    }
                    Ok((out, 1))
                },
                Err(error) => Err(error),
            }
        },
    }
}

/// How far a call of the preprocessor came.
#[derive(Debug)]
pub enum Progress {
    /// A round substituted nothing: the text is final.
    Done(String),
    /// The round that comes next starts with an `%include`, whose file is
    /// still to be read: the text needs another call.
    Pending(String),
    /// The first `%define` of the text names a key with a NUL in it, which
    /// the table cannot hold: the text cannot be preprocessed any further.
    BadKey(String),
}

/// A `Progress` with its text as a sequence of characters.
pub enum ProgressView {
    Done(Seq<char>),
    Pending(Seq<char>),
    BadKey(Seq<char>),
}

impl View for Progress {
    type V = ProgressView;

    open spec fn view(&self) -> ProgressView {
        match self {
            Progress::Done(text) => ProgressView::Done(text@),
            Progress::Pending(text) => ProgressView::Pending(text@),
            Progress::BadKey(text) => ProgressView::BadKey(text@),
        }
    }
}

/// What a call of the preprocessor hands back, with its texts as sequences
/// of characters.
pub open spec fn progress_view(r: Result<Progress, PreprocessingError>) -> Result<
    ProgressView,
    PreprocessingErrorView,
> {
    match r {
        Ok(progress) => Ok(progress@),
        Err(error) => Err(error@),
    }
}

/// Whether no directive is left in `text`.
pub open spec fn is_preprocessed(text: Seq<char>) -> bool {
    !contains_pattern(text, include_token()) && !contains_pattern(text, define_token())
}

/// What the rounds that need no file make of `text`, with a table that
/// holds `store`: the result, and what the table holds afterwards. Each round
/// resolves the first `%define`, and the rounds end with the one that finds
/// nothing to resolve. They stop short of a round that would start with an
/// `%include`, and at a key that the table cannot hold. An error ends them
/// where it arises, and what was recorded before it stays recorded.
pub open spec fn remaining_rounds(text: Seq<char>, store: Map<Seq<u8>, Entry>) -> (
    Result<ProgressView, PreprocessingErrorView>,
    Map<Seq<u8>, Entry>,
)
    decreases text.len(),
    via remaining_rounds_terminate
{
    if contains_pattern(text, include_token()) {
        (Ok(ProgressView::Pending(text)), store)
    } else if !next_define_is_storable(text) {
        (Ok(ProgressView::BadKey(text)), store)
    } else {
        match define_step(text, store) {
            (Err(error), after) => (Err(error), after),
            (Ok((defined, num_defines)), after) => {
                if num_defines == 0 {
                    (Ok(ProgressView::Done(defined)), after)
                } else {
                    remaining_rounds(defined, after)
                }
            },
        }
    }
}

#[via_fn]
proof fn remaining_rounds_terminate(text: Seq<char>, store: Map<Seq<u8>, Entry>) {
    if contains_pattern(text, define_token()) {
        lemma_define_shortens(text);
    }
}

/// Emptying the line of the first `%define` makes a text shorter.
pub proof fn lemma_define_shortens(text: Seq<char>)
    requires
        contains_pattern(text, define_token()),
    ensures
        replace_directive_line(text, define_token(), Seq::empty()).len() < text.len(),
{
    lemma_tokens_hold_no_line_feed();
    lemma_directive_line_bounds(text, define_token());
}

/// What one call of the preprocessor makes of `src`, where reading the file
/// of its first `%include` gave `file` and the table holds `store`: the
/// result, and what the table holds afterwards. The first round resolves the
/// first `%include`, then the first `%define` of what that leaves. If neither
/// was there the text is final. Otherwise the rounds that follow are run as
/// far as they need no file.
pub open spec fn preprocess_step(
    src: Seq<char>,
    file: Result<Seq<char>, std::io::Error>,
    store: Map<Seq<u8>, Entry>,
) -> (Result<ProgressView, PreprocessingErrorView>, Map<Seq<u8>, Entry>) {
    match include_step(src, file) {
        Err(error) => (Err(error), store),
        Ok((included, num_includes)) => {
            if !next_define_is_storable(included) {
                (Ok(ProgressView::BadKey(included)), store)
            } else {
                match define_step(included, store) {
                    (Err(error), after) => (Err(error), after),
                    (Ok((defined, num_defines)), after) => {
                        if num_includes + num_defines == 0 {
                            (Ok(ProgressView::Done(defined)), after)
                        } else {
                            remaining_rounds(defined, after)
                        }
                    },
                }
            }
        },
    }
}

/// Whether the text that a call hands back is in the state that its answer
/// names: no directive is left where the call is done, an `%include` is left
/// where it is pending, and the first `%define` names a key with a NUL in it
/// where that is the answer.
pub open spec fn is_sound_progress(r: Result<Progress, PreprocessingError>) -> bool {
    match r {
        Ok(Progress::Done(text)) => is_preprocessed(text@),
        Ok(Progress::Pending(text)) => contains_pattern(text@, include_token()),
        Ok(Progress::BadKey(text)) => !next_define_is_storable(text@),
        Err(_) => true,
    }
}

/// Whether `src` holds an `%include`.
fn has_include(src: &str) -> (r: bool)
    ensures
        r == contains_pattern(src@, include_token()),
{
    let text = chars_of(src);
    let pattern = chars_of("%include");
    find_pattern(&text, &pattern).is_some()
}

/// Runs on `src` the rounds that need no file.
fn run_remaining_rounds(src: String, defines: &mut HashTable) -> (r: Result<
    Progress,
    PreprocessingError,
>)
    ensures
        (progress_view(r), final(defines)@) == remaining_rounds(src@, old(defines)@),
        is_sound_progress(r),
{
    let ghost start = src@;
    let mut text = src;
    loop
        invariant
            start == src@,
            remaining_rounds(text@, defines@) == remaining_rounds(start, old(defines)@),
        decreases text@.len(),
    {
        if has_include(text.as_str()) {
            return Ok(Progress::Pending(text));
        }
        if !define_is_storable(text.as_str()) {
            return Ok(Progress::BadKey(text));
        }
        proof {
            if contains_pattern(text@, define_token()) {
                lemma_define_shortens(text@);
            }
        }
        match process_defines(text, defines) {
            Ok((defined, num_defines)) => {
                if num_defines == 0 {
                    return Ok(Progress::Done(defined));
                }
                text = defined;
            },
            Err(error) => {
                return Err(error);
            },
        }
    }
}

/// Preprocesses `src` as far as one file goes. The first round resolves
/// the first `%include` through `read_file` and then the first `%define`;
/// the rounds after it run for as long as none of them starts with an
/// `%include`. A caller preprocesses a text by calling again, on the text
/// that came back, for as long as the answer is `Pending`.
pub fn preprocess<R>(src: String, defines: &mut HashTable, read_file: R) -> (r: Result<
    Progress,
    PreprocessingError,
>) where R: FnOnce(&str) -> Result<String, std::io::Error>
    requires
        contains_pattern(src@, include_token()) ==> forall|path: &str|
            path@ == directive_payload(src@, include_token()) ==> read_file.requires((path,)),
    ensures
        !contains_pattern(src@, include_token()) ==> (forall|
            file: Result<Seq<char>, std::io::Error>,
        |
            (progress_view(r), final(defines)@) == #[trigger] preprocess_step(
                src@,
                file,
                old(defines)@,
            )),
        contains_pattern(src@, include_token()) ==> (exists|
            path: &str,
            answer: Result<String, std::io::Error>,
        |
            path@ == directive_payload(src@, include_token()) && read_file.ensures(
                (path,),
                answer,
            ) && (progress_view(r), final(defines)@) == preprocess_step(
                src@,
                file_view(answer),
                old(defines)@,
            )),
        is_preprocessed(src@) ==> r == Ok::<_, PreprocessingError>(Progress::Done(src))
            && final(defines)@ == old(defines)@,
        is_sound_progress(r),
{
    let (included, num_includes) = match process_includes(src, read_file) {
        Ok(done) => done,
        Err(error) => {
            return Err(error);
        },
    };
    if !define_is_storable(included.as_str()) {
        return Ok(Progress::BadKey(included));
    }
    let (defined, num_defines) = match process_defines(included, defines) {
        Ok(done) => done,
        Err(error) => {
            return Err(error);
        },
    };
    if num_includes == 0 && num_defines == 0 {
        return Ok(Progress::Done(defined));
    }
    run_remaining_rounds(defined, defines)
}

/// A text in which no directive is left comes back as it is: neither
/// resolver substitutes anything, whatever a file would hold, the call is done
/// with that text, and the table holds what it held.
pub proof fn lemma_preprocessed_text_is_unchanged(
    text: Seq<char>,
    file: Result<Seq<char>, std::io::Error>,
    store: Map<Seq<u8>, Entry>,
)
    requires
        is_preprocessed(text),
    ensures
        include_step(text, file) == Ok::<_, PreprocessingErrorView>((text, 0nat)),
        define_step(text, store) == (Ok::<_, PreprocessingErrorView>((text, 0nat)), store),
        preprocess_step(text, file, store) == (
            Ok::<_, PreprocessingErrorView>(ProgressView::Done(text)),
            store,
        ),
{
}

/// The rounds that need no file are done only with a text in which no
/// directive is left.
pub proof fn lemma_rounds_end_preprocessed(text: Seq<char>, store: Map<Seq<u8>, Entry>)
    ensures
        remaining_rounds(text, store).0 matches Ok(ProgressView::Done(out)) ==> is_preprocessed(
            out,
        ),
    decreases text.len(),
{
    if !contains_pattern(text, include_token()) && next_define_is_storable(text) {
        if let (Ok((defined, num_defines)), after) = define_step(text, store) {
            if num_defines != 0 {
                lemma_define_shortens(text);
                lemma_rounds_end_preprocessed(defined, after);
            }
        }
    }
}

/// Preprocessing its own result changes nothing. Where a call is done,
/// no directive is left in its text, and a call on that text, with the table
/// as the first call left it and whatever a file would hold, is done at once
/// with the same text and leaves the table as it is.
pub proof fn lemma_preprocessing_is_idempotent(
    src: Seq<char>,
    file: Result<Seq<char>, std::io::Error>,
    store: Map<Seq<u8>, Entry>,
    again: Result<Seq<char>, std::io::Error>,
)
    ensures
        preprocess_step(src, file, store).0 matches Ok(ProgressView::Done(out)) ==> {
            &&& is_preprocessed(out)
            &&& preprocess_step(out, again, preprocess_step(src, file, store).1) == (
                Ok::<_, PreprocessingErrorView>(ProgressView::Done(out)),
                preprocess_step(src, file, store).1,
            )
        },
{
    if let Ok(ProgressView::Done(out)) = preprocess_step(src, file, store).0 {
        if let Ok((included, num_includes)) = include_step(src, file) {
            if let (Ok((defined, num_defines)), after) = define_step(included, store) {
                if num_includes + num_defines != 0 {
                    lemma_rounds_end_preprocessed(defined, after);
                }
            }
        }
        lemma_preprocessed_text_is_unchanged(out, again, preprocess_step(src, file, store).1);
    }
}

} // verus!
