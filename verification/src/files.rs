//! Files as the library sees them: a path, and what reading it gave.
use vstd::prelude::*;
use vstd::string::*;

use crate::error::{Error, ErrorView};

verus! {

/// A file that was read: its bytes, or the text of the I/O error.
pub struct StoredFile {
    /// Where the file lies.
    pub path: String,
    /// What reading it gave.
    pub content: Result<Vec<u8>, String>,
}

/// A [`StoredFile`] as a mathematical value.
#[verifier::ext_equal]
pub ghost struct StoredFileView {
    pub path: Seq<char>,
    pub content: Result<Seq<u8>, ErrorView>,
}

/// The outcome of reading a file.
pub open spec fn content_outcome(content: Result<Vec<u8>, String>) -> Result<Seq<u8>, ErrorView> {
    match content {
        Ok(bytes) => Ok(bytes@),
        Err(text) => Err(ErrorView::Io(text@)),
    }
}

impl View for StoredFile {
    type V = StoredFileView;

    open spec fn view(&self) -> StoredFileView {
        StoredFileView { path: self.path@, content: content_outcome(self.content) }
    }
}

/// The files as mathematical values.
pub open spec fn files_view(files: Seq<StoredFile>) -> Seq<StoredFileView> {
    files.map_values(|f: StoredFile| f@)
}

/// The texts as sequences of characters.
pub open spec fn texts_view(texts: Seq<String>) -> Seq<Seq<char>> {
    texts.map_values(|t: String| t@)
}

/// A file is seen by its path and by the bytes that reading it gave, or by its
/// I/O error; files and texts keep their number and their order.
pub proof fn files_are_seen_as_they_were_read(files: Seq<StoredFile>, texts: Seq<String>)
    ensures
        files_view(files).len() == files.len(),
        forall|i: int|
            0 <= i < files.len() ==> (#[trigger] files_view(files)[i]).path == files[i].path@ && (
            match files[i].content {
                Ok(bytes) => files_view(files)[i].content == Ok::<Seq<u8>, ErrorView>(bytes@),
                Err(text) => files_view(files)[i].content == Err::<Seq<u8>, ErrorView>(
                    ErrorView::Io(text@),
                ),
            }),
        texts_view(texts).len() == texts.len(),
        forall|i: int| 0 <= i < texts.len() ==> #[trigger] texts_view(texts)[i] == texts[i]@,
{
}

/// The bytes that a read gave, or its I/O error.
pub fn contents(content: &Result<Vec<u8>, String>) -> (bytes: Result<&Vec<u8>, Error>)
    ensures
        match content_outcome(*content) {
            Ok(expected) => bytes is Ok && bytes->Ok_0@ == expected,
            Err(error) => bytes is Err && bytes->Err_0@ == error,
        },
        match content {
            Ok(read) => bytes is Ok && bytes->Ok_0@ == read@,
            Err(text) => bytes is Err && bytes->Err_0@ == ErrorView::Io(text@),
        },
{
    match content {
        Ok(bytes) => Ok(bytes),
        Err(text) => Err(Error::Io(text.clone())),
    }
}

} // verus!
