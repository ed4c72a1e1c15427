//! Statements about what an operation did to the user's file.

use vstd::prelude::*;

use crate::bytes::copy_bytes;
use crate::text::same_text;

verus! {

/// One statement about what an operation did to the user's file that the file
/// itself cannot show: something changed, something could not be carried over,
/// or something the interface promises did not actually happen.
///
/// Every notice is meant to be displayed. The core never changes a file in a
/// way a user would not expect without returning a notice saying so.
pub struct Notice {
    pub code: &'static str,
    pub message: String,
}

/// The stable identifier and the sentence of a notice.
pub struct NoticeValue {
    pub code: Seq<char>,
    pub message: Seq<char>,
}

impl View for Notice {
    type V = NoticeValue;

    open spec fn view(&self) -> NoticeValue {
        NoticeValue { code: self.code@, message: self.message@ }
    }
}

/// A notice with this code and this sentence.
pub open spec fn notice(code: Seq<char>, message: Seq<char>) -> NoticeValue {
    NoticeValue { code, message }
}

/// Notices by their values.
pub open spec fn notice_values(notices: Seq<Notice>) -> Seq<NoticeValue> {
    notices.map_values(|notice: Notice| notice@)
}

/// Whether a notice with this code is present.
pub open spec fn has_code(notices: Seq<NoticeValue>, code: Seq<char>) -> bool {
    exists|i: int| 0 <= i < notices.len() && (#[trigger] notices[i]).code == code
}

/// The notices with one more, unless its code is already present.
pub open spec fn with_notice(
    notices: Seq<NoticeValue>,
    added: NoticeValue,
) -> Seq<NoticeValue> {
    if has_code(notices, added.code) {
        notices
    } else {
        notices.push(added)
    }
}

/// Whether no code occurs twice.
pub open spec fn codes_are_distinct(notices: Seq<NoticeValue>) -> bool {
    forall|i: int, j: int|
        0 <= i < j < notices.len() ==> (#[trigger] notices[i]).code != (#[trigger] notices[j]).code
}

impl Notice {
    pub fn new(code: &'static str, message: &str) -> (notice: Notice)
        ensures
            notice@ == (NoticeValue { code: code@, message: message@ }),
    {
        Notice { code, message: message.to_owned() }
    }

    /// The stable identifier.
    pub fn code(&self) -> (code: &'static str)
        ensures
            code@ == self@.code,
    {
        self.code
    }

    /// The sentence to show.
    pub fn message(&self) -> (message: &str)
        ensures
            message@ == self@.message,
    {
        self.message.as_str()
    }
}

/// Whether a notice with this code is present.
pub fn contains_code(notices: &Vec<Notice>, code: &str) -> (found: bool)
    ensures
        found == has_code(notice_values(notices@), code@),
{
    let ghost values = notice_values(notices@);
    let mut i: usize = 0;
    while i < notices.len()
        invariant
            i <= notices@.len(),
            values == notice_values(notices@),
            forall|j: int| 0 <= j < i ==> (#[trigger] values[j]).code != code@,
        decreases notices.len() - i,
    {
        if same_text(notices[i].code, code) {
            assert(values[i as int].code == code@);
            return true;
        }
        i += 1;
    }
    false
}

/// Add a notice unless the same code is already present, so a repeated
/// condition (ten images with the same problem) reads as one statement.
pub fn push_notice(notices: &mut Vec<Notice>, notice: Notice)
    ensures
        notice_values(final(notices)@) == with_notice(notice_values(old(notices)@), notice@),
{
    if !contains_code(notices, notice.code) {
        notices.push(notice);
        assert(notice_values(notices@) =~= notice_values(old(notices)@).push(notice@));
    }
}

/// Adding a notice keeps every notice that was there, in its order, and never
/// makes a code occur twice.
pub proof fn adding_keeps_codes_distinct(notices: Seq<NoticeValue>, added: NoticeValue)
    requires
        codes_are_distinct(notices),
    ensures
        codes_are_distinct(with_notice(notices, added)),
        has_code(with_notice(notices, added), added.code),
        notices.is_prefix_of(with_notice(notices, added)),
{
    let result = with_notice(notices, added);
    if !has_code(notices, added.code) {
        assert(result[notices.len() as int].code == added.code);
    }
}

/// A notice that is already present is not repeated.
pub proof fn adding_twice_is_adding_once(notices: Seq<NoticeValue>, added: NoticeValue)
    ensures
        with_notice(with_notice(notices, added), added) == with_notice(notices, added),
{
    let once = with_notice(notices, added);
    if !has_code(notices, added.code) {
        assert(once[notices.len() as int].code == added.code);
    }
}

/// The bytes an operation produced plus every notice the interface must show.
///
/// `bytes` is the file. `notices` are human-readable sentences; `notice_codes`
/// are the matching stable identifiers, in the same order, for interfaces that
/// want to style or group them.
pub struct FileResult {
    bytes: Vec<u8>,
    notices: Vec<Notice>,
}

impl View for FileResult {
    type V = (Seq<u8>, Seq<NoticeValue>);

    closed spec fn view(&self) -> (Seq<u8>, Seq<NoticeValue>) {
        (self.bytes@, notice_values(self.notices@))
    }
}

impl FileResult {
    pub fn new(bytes: Vec<u8>, notices: Vec<Notice>) -> (result: FileResult)
        ensures
            result@ == (bytes@, notice_values(notices@)),
    {
        FileResult { bytes, notices }
    }

    /// The produced file's bytes.
    pub fn bytes(&self) -> (bytes: Vec<u8>)
        ensures
            bytes@ == self@.0,
    {
        copy_bytes(&self.bytes)
    }

    /// The produced file's bytes, without a copy.
    pub fn bytes_ref(&self) -> (bytes: &[u8])
        ensures
            bytes@ == self@.0,
    {
        &self.bytes
    }

    /// Sentences to show the user about this result. May be empty.
    pub fn notices(&self) -> (sentences: Vec<String>)
        ensures
            sentences@.len() == self@.1.len(),
            forall|i: int| 0 <= i < self@.1.len() ==> (#[trigger] sentences@[i])@ == self@.1[i].message,
    {
        let mut sentences: Vec<String> = Vec::new();
        let mut i: usize = 0;
        while i < self.notices.len()
            invariant
                i <= self.notices@.len(),
                sentences@.len() == i,
                forall|j: int| 0 <= j < i ==> (#[trigger] sentences@[j])@ == self@.1[j].message,
            decreases self.notices.len() - i,
        {
            sentences.push(self.notices[i].message.clone());
            i += 1;
        }
        sentences
    }

    /// Stable identifiers matching `notices`, in the same order.
    pub fn notice_codes(&self) -> (codes: Vec<String>)
        ensures
            codes@.len() == self@.1.len(),
            forall|i: int| 0 <= i < self@.1.len() ==> (#[trigger] codes@[i])@ == self@.1[i].code,
    {
        let mut codes: Vec<String> = Vec::new();
        let mut i: usize = 0;
        while i < self.notices.len()
            invariant
                i <= self.notices@.len(),
                codes@.len() == i,
                forall|j: int| 0 <= j < i ==> (#[trigger] codes@[j])@ == self@.1[j].code,
            decreases self.notices.len() - i,
        {
            codes.push(self.notices[i].code.to_owned());
            i += 1;
        }
        codes
    }

    /// The stable identifiers in order, without copies.
    pub fn codes(&self) -> (codes: Vec<&'static str>)
        ensures
            codes@.len() == self@.1.len(),
            forall|i: int| 0 <= i < self@.1.len() ==> (#[trigger] codes@[i])@ == self@.1[i].code,
    {
        let mut codes: Vec<&'static str> = Vec::new();
        let mut i: usize = 0;
        while i < self.notices.len()
            invariant
                i <= self.notices@.len(),
                codes@.len() == i,
                forall|j: int| 0 <= j < i ==> (#[trigger] codes@[j])@ == self@.1[j].code,
            decreases self.notices.len() - i,
        {
            codes.push(self.notices[i].code);
            i += 1;
        }
        codes
    }

    /// The sentences in order, without copies.
    pub fn messages(&self) -> (messages: Vec<&str>)
        ensures
            messages@.len() == self@.1.len(),
            forall|i: int| 0 <= i < self@.1.len() ==> (#[trigger] messages@[i])@ == self@.1[i].message,
    {
        let mut messages: Vec<&str> = Vec::new();
        let mut i: usize = 0;
        while i < self.notices.len()
            invariant
                i <= self.notices@.len(),
                messages@.len() == i,
                forall|j: int| 0 <= j < i ==> (#[trigger] messages@[j])@ == self@.1[j].message,
            decreases self.notices.len() - i,
        {
            messages.push(self.notices[i].message.as_str());
            i += 1;
        }
        messages
    }
}

/// A file together with what has to be said about it.
pub open spec fn told_outcome(result: Result<(Vec<u8>, Vec<Notice>), String>) -> Result<
    (Seq<u8>, Seq<NoticeValue>),
    Seq<char>,
> {
    match result {
        Ok((bytes, notices)) => Ok((bytes@, notice_values(notices@))),
        Err(error) => Err(error@),
    }
}

} // verus!
