//! Renaming a student's thesis documents to the names a submission expects:
//! `{n}-{student id}{student name}[{document type}].{extension}`.

use vstd::prelude::*;
use crate::paths::{extension, extension_of, file_name, file_name_of};
use crate::text::{chars_of, concat, decimal, extend_chars, push_decimal, string_of, string_views};

verus! {

#[verifier::external_type_specification]
#[verifier::external_body]
pub struct ExDialoguerError(dialoguer::Error);

/// What can go wrong while renaming the documents.
pub enum AppError {
    Io(std::io::Error),
    Interaction(dialoguer::Error),
    NoFilesFound(String),
    Processing(String),
}

impl From<std::io::Error> for AppError {
    fn from(err: std::io::Error) -> (r: Self) {
        AppError::Io(err)
    }
}

impl vstd::std_specs::convert::FromSpecImpl<std::io::Error> for AppError {
    open spec fn obeys_from_spec() -> bool {
        true
    }

    open spec fn from_spec(v: std::io::Error) -> Self {
        AppError::Io(v)
    }
}

impl From<dialoguer::Error> for AppError {
    fn from(err: dialoguer::Error) -> (r: Self) {
        AppError::Interaction(err)
    }
}

impl vstd::std_specs::convert::FromSpecImpl<dialoguer::Error> for AppError {
    open spec fn obeys_from_spec() -> bool {
        true
    }

    open spec fn from_spec(v: dialoguer::Error) -> Self {
        AppError::Interaction(v)
    }
}

/// The text `Display` gives for an I/O error. It comes from the operating system's
/// messages, so nothing is stated of it.
#[verifier::external_body]
fn io_error_text(e: &std::io::Error) -> (s: String) {
    format!("{}", e)
}

/// The text `Display` gives for a prompt error. It comes from the operating system's
/// messages, so nothing is stated of it.
#[verifier::external_body]
fn dialoguer_error_text(e: &dialoguer::Error) -> (s: String) {
    format!("{}", e)
}

impl AppError {
    /// The error as shown to the user. For the I/O and prompt errors the system's
    /// message follows the prefix and is not stated.
    pub fn to_string(&self) -> (s: String)
        ensures
            match self {
                AppError::Io(_) => "IO error: "@.is_prefix_of(s@),
                AppError::Interaction(_) => "Interaction error: "@.is_prefix_of(s@),
                AppError::NoFilesFound(d) => s@ == "No files found in directory: "@ + d@,
                AppError::Processing(m) => s@ == "Processing error: "@ + m@,
            },
    {
        match self {
            AppError::Io(e) => {
                let t = io_error_text(e);
                concat("IO error: ", t.as_str())
            },
            AppError::Interaction(e) => {
                let t = dialoguer_error_text(e);
                concat("Interaction error: ", t.as_str())
            },
            AppError::NoFilesFound(d) => concat("No files found in directory: ", d.as_str()),
            AppError::Processing(m) => concat("Processing error: ", m.as_str()),
        }
    }
}

/// The document types of a submission, in the order their files are asked for.
pub open spec fn doc_type_names() -> Seq<Seq<char>> {
    seq![
        "任务书"@,
        "文献综述"@,
        "外文翻译"@,
        "开题报告"@,
        "skip"@,
        "教师中期检查表"@,
        "毕业设计过程稿"@,
        "毕业设计过程稿图纸"@,
        "毕业设计定稿"@,
        "毕业设计定稿图纸"@,
        "指导记录表"@,
        "指导教师评阅"@,
        "评阅教师评阅"@,
    ]
}

fn push_text(v: &mut Vec<String>, s: &str)
    ensures
        string_views(final(v)@) == string_views(old(v)@).push(s@),
{
    v.push(s.to_string());
    assert(string_views(v@) =~= string_views(old(v)@).push(s@));
}

/// The document types of a submission, in order; `skip` stands for a step whose file
/// is of no particular type.
pub fn doc_types() -> (v: Vec<String>)
    ensures
        string_views(v@) == doc_type_names(),
{
    let mut v: Vec<String> = Vec::new();
    assert(string_views(v@) =~= Seq::<Seq<char>>::empty());
    push_text(&mut v, "任务书");
    push_text(&mut v, "文献综述");
    push_text(&mut v, "外文翻译");
    push_text(&mut v, "开题报告");
    push_text(&mut v, "skip");
    push_text(&mut v, "教师中期检查表");
    push_text(&mut v, "毕业设计过程稿");
    push_text(&mut v, "毕业设计过程稿图纸");
    push_text(&mut v, "毕业设计定稿");
    push_text(&mut v, "毕业设计定稿图纸");
    push_text(&mut v, "指导记录表");
    push_text(&mut v, "指导教师评阅");
    push_text(&mut v, "评阅教师评阅");
    assert(string_views(v@) =~= doc_type_names());
    v
}

/// The new name of a document: `{index}-{id}{name}[{type}]`, then `.` and the
/// original file's extension when it has a non-empty one.
pub open spec fn new_filename(
    index: nat,
    student_id: Seq<char>,
    student_name: Seq<char>,
    doc_type: Seq<char>,
    original: Seq<char>,
) -> Seq<char> {
    let base = decimal(index) + "-"@ + student_id + student_name + "["@ + doc_type + "]"@;
    match extension(original) {
        Some(e) => if e.len() > 0 { base + "."@ + e } else { base },
        None => base,
    }
}

/// The new name of the document at `original_path`, the `index`-th of the submission.
pub fn construct_new_filename(
    index: usize,
    student_id: &str,
    student_name: &str,
    doc_type: &str,
    original_path: &str,
) -> (r: Result<String, AppError>)
    ensures
        r matches Ok(s) && s@ == new_filename(index as nat, student_id@, student_name@, doc_type@, original_path@),
{
    let mut v: Vec<char> = Vec::new();
    push_decimal(&mut v, index as u64);
    v.push('-');
    extend_chars(&mut v, &chars_of(student_id));
    extend_chars(&mut v, &chars_of(student_name));
    v.push('[');
    extend_chars(&mut v, &chars_of(doc_type));
    v.push(']');
    let ghost base = v@;
    proof {
        reveal_strlit("-");
        reveal_strlit("[");
        reveal_strlit("]");
        reveal_strlit(".");
    }
    assert(base =~= decimal(index as nat) + "-"@ + student_id@ + student_name@ + "["@ + doc_type@ + "]"@);
    match extension_of(&chars_of(original_path)) {
        Some(e) => {
            if e.len() > 0 {
                v.push('.');
                extend_chars(&mut v, &e);
                assert(v@ =~= base + "."@ + e@);
            }
        },
        None => {},
    }
    Ok(string_of(&v))
}

/// The names offered for choosing the file of one document type: each candidate's
/// file name, or empty text where it has none.
pub open spec fn choice_names(paths: Seq<Seq<char>>) -> Seq<Seq<char>> {
    paths.map_values(|p: Seq<char>| match file_name(p) {
        Some(f) => f,
        None => Seq::<char>::empty(),
    })
}

/// The names to choose the file of `doc_type` from; an error when there is nothing to
/// choose.
pub fn selection_items(paths: &Vec<String>, doc_type: &str) -> (r: Result<Vec<String>, AppError>)
    ensures
        paths.len() == 0 ==> (r matches Err(AppError::Processing(m)) && m@ == "No items to select for "@ + doc_type@
            + ". This might indicate an empty input directory."@),
        paths.len() > 0 ==> (r matches Ok(v) && string_views(v@) == choice_names(string_views(paths@))),
{
    if paths.len() == 0 {
        let a = concat("No items to select for ", doc_type);
        return Err(AppError::Processing(concat(a.as_str(), ". This might indicate an empty input directory.")));
    }
    let mut v: Vec<String> = Vec::new();
    let mut k: usize = 0;
    while k < paths.len()
        invariant
            k <= paths.len(),
            v.len() == k,
            string_views(v@) == choice_names(string_views(paths@)).take(k as int),
        decreases paths.len() - k,
    {
        let ghost before = string_views(v@);
        let name = match file_name_of(&chars_of(paths[k].as_str())) {
            Some(f) => string_of(&f),
            None => String::new(),
        };
        v.push(name);
        let ghost want = choice_names(string_views(paths@)).take(k as int + 1);
        assert(want[k as int] == name@);
        assert forall|j: int| 0 <= j < k implies #[trigger] string_views(v@)[j] == want[j] by {
            assert(string_views(v@)[j] == before[j]);
            assert(before[j] == choice_names(string_views(paths@))[j]);
        }
        assert(string_views(v@) =~= want);
        k = k + 1;
    }
    assert(choice_names(string_views(paths@)).take(paths.len() as int) =~= choice_names(string_views(paths@)));
    Ok(v)
}

} // verus!
