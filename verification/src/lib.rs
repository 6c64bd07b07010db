//! Acquisition of physical memory on Linux: the physical ranges of the
//! machine, the container that holds a snapshot of them, the planning of
//! what is read from which memory source, and the sizing of a block-blob
//! upload of the finished file.
//!
//! Everything here works on values in memory. Opening devices, files and
//! network connections is left to the caller.

use crate::text::{failure_text, texts};
use vstd::prelude::*;
use vstd::string::StringExecFns;

pub mod convert;
pub mod disk_usage;
pub mod image;
pub mod io;
pub mod iomem;
pub mod order;
pub mod snapshot;
pub mod text;
pub mod upload;

pub use crate::snapshot::{Snapshot, Source};
pub use crate::text::{format_error, indent};
pub use crate::upload::blobstore::{BlobUploader, DEFAULT_CONCURRENCY};

verus! {

/// Number of bytes in one mebibyte.
pub const ONE_MB: u64 = 1_048_576;

/// Why the work failed.
#[derive(Debug, PartialEq, Eq)]
pub enum Error {
    /// A container could not be read or written.
    Image(crate::image::Error),
    /// The memory could not be read.
    Memory(crate::snapshot::Error),
    /// The iomem table could not be read.
    Iomem(crate::iomem::Error),
    /// The upload with `PUT` failed.
    Upload(crate::upload::http::Error),
    /// The upload to a block blob failed.
    Blob(crate::upload::blobstore::Error),
    /// The runtime for the upload could not be started; the text says why.
    Tokio(String),
    /// The snapshot could not be removed after the upload; the text says
    /// why.
    RemoveSnapshot(String),
    /// Source and target have the same format.
    NoConversionRequired,
}

impl Error {
    /// What the failure says of itself.
    pub open spec fn message_text(&self) -> Seq<char> {
        match self {
            Error::Image(_) => "unable to create snapshot"@,
            Error::Memory(_) => "unable to read memory"@,
            Error::Iomem(_) => "unable to parse /proc/iomem"@,
            Error::Upload(_) => "unable to upload file via PUT"@,
            Error::Blob(_) => "unable to upload file to Azure Storage"@,
            Error::Tokio(cause) => "tokio runtime error: "@ + cause@,
            Error::RemoveSnapshot(_) => "unable to remove snapshot"@,
            Error::NoConversionRequired => "no conversion required"@,
        }
    }

    /// What the failure says of itself.
    pub fn message(&self) -> (text: String)
        ensures
            text@ == self.message_text(),
    {
        match self {
            Error::Image(_) => String::from_str("unable to create snapshot"),
            Error::Memory(_) => String::from_str("unable to read memory"),
            Error::Iomem(_) => String::from_str("unable to parse /proc/iomem"),
            Error::Upload(_) => String::from_str("unable to upload file via PUT"),
            Error::Blob(_) => String::from_str("unable to upload file to Azure Storage"),
            Error::Tokio(cause) => {
                let mut text = String::from_str("tokio runtime error: ");
                text.append(cause.as_str());
                text
            },
            Error::RemoveSnapshot(_) => String::from_str("unable to remove snapshot"),
            Error::NoConversionRequired => String::from_str("no conversion required"),
        }
    }

    /// The messages of the causes of the failure, the nearest first.
    pub open spec fn cause_texts(&self) -> Seq<Seq<char>> {
        match self {
            Error::Image(cause) => cause.chain_texts(),
            Error::Memory(cause) => cause.chain_texts(),
            Error::Iomem(cause) => cause.chain_texts(),
            Error::Upload(cause) => cause.chain_texts(),
            Error::Blob(cause) => cause.chain_texts(),
            Error::Tokio(cause) => seq![cause@],
            Error::RemoveSnapshot(cause) => seq![cause@],
            Error::NoConversionRequired => Seq::empty(),
        }
    }

    /// The failure's message and, after it, those of its causes, the
    /// nearest first.
    pub open spec fn chain_texts(&self) -> Seq<Seq<char>> {
        seq![self.message_text()] + self.cause_texts()
    }

    /// The failure's message and, after it, those of its causes, the
    /// nearest first.
    pub fn chain(&self) -> (messages: Vec<String>)
        ensures
            texts(messages@) == self.chain_texts(),
    {
        let mut messages: Vec<String> = Vec::new();
        messages.push(self.message());
        let mut causes: Vec<String> = match self {
            Error::Image(cause) => cause.chain(),
            Error::Memory(cause) => cause.chain(),
            Error::Iomem(cause) => cause.chain(),
            Error::Upload(cause) => cause.chain(),
            Error::Blob(cause) => cause.chain(),
            Error::Tokio(cause) => {
                let mut one: Vec<String> = Vec::new();
                one.push(cause.clone());
                assert(texts(one@) =~= seq![cause@]);
                one
            },
            Error::RemoveSnapshot(cause) => {
                let mut one: Vec<String> = Vec::new();
                one.push(cause.clone());
                assert(texts(one@) =~= seq![cause@]);
                one
            },
            Error::NoConversionRequired => {
                let none: Vec<String> = Vec::new();
                assert(texts(none@) =~= Seq::<Seq<char>>::empty());
                none
            },
        };
        let ghost first = messages@;
        let ghost rest = causes@;
        messages.append(&mut causes);
        assert(texts(first + rest) =~= texts(first) + texts(rest));
        assert(texts(first) =~= seq![self.message_text()]);
        messages
    }

    /// The failure with its causes as one text: `error:` and the message,
    /// then the causes, numbered.
    pub fn report(&self) -> (text: String)
        ensures
            text@ == failure_text(self.chain_texts()),
    {
        format_error(&self.chain())
    }
}

} // verus!
