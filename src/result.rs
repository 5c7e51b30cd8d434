//! The error of reading a corpus of websites.
use vstd::prelude::*;
use crate::parse::HtmlFile;
use std::io;
use std::path::PathBuf;

verus! {

#[verifier::external_type_specification]
#[verifier::external_body]
pub struct ExIoError(std::io::Error);

#[verifier::external_type_specification]
#[verifier::external_body]
pub struct ExPathBuf(std::path::PathBuf);

/// An error, with the path it concerns when one is known.
pub struct Error {
    pub path: Option<PathBuf>,
    pub error: ErrorKind,
}

/// What went wrong.
pub enum ErrorKind {
    /// Reading or listing a file failed.
    Io(io::Error),
    /// A website holds more than one HTML file, so its main page is unknown.
    MultipleHtmlFiles(Vec<HtmlFile>),
}

impl Error {
    /// Whether this is an I/O error for which `f` holds.
    pub fn is_io_and<F: FnOnce(&io::Error) -> bool>(&self, f: F) -> (r: bool)
        requires
            match self.error {
                ErrorKind::Io(e) => call_requires(f, (&e,)),
                _ => true,
            },
        ensures
            match self.error {
                ErrorKind::Io(e) => call_ensures(f, (&e,), r),
                _ => !r,
            },
    {
        match &self.error {
            ErrorKind::Io(e) => f(e),
            _ => false,
        }
    }

    /// Whether this is a multiple-HTML-files error for which `f` holds.
    pub fn is_html_and<F: FnOnce(&Vec<HtmlFile>) -> bool>(&self, f: F) -> (r: bool)
        requires
            match self.error {
                ErrorKind::MultipleHtmlFiles(v) => call_requires(f, (&v,)),
                _ => true,
            },
        ensures
            match self.error {
                ErrorKind::MultipleHtmlFiles(v) => call_ensures(f, (&v,), r),
                _ => !r,
            },
    {
        match &self.error {
            ErrorKind::MultipleHtmlFiles(v) => f(v),
            _ => false,
        }
    }

    /// An I/O error concerning `path`.
    pub fn with_io_error(error: io::Error, path: Option<PathBuf>) -> (r: Error)
        ensures
            r.path == path,
            r.error == ErrorKind::Io(error),
    {
        Error { path, error: ErrorKind::Io(error) }
    }
}

/// Turning an I/O error into the library's error.
pub trait IntoErrorExt {
    fn into_error(self, path: Option<PathBuf>) -> Error;
}

impl IntoErrorExt for io::Error {
    fn into_error(self, path: Option<PathBuf>) -> (r: Error)
        ensures
            r.path == path,
            r.error == ErrorKind::Io(self),
    {
        Error { path, error: ErrorKind::Io(self) }
    }
}

/// Turning the result of an I/O operation into the library's result.
pub trait IntoResultExt<T> {
    fn into_result(self, path: Option<PathBuf>) -> Result<T, Error>;
}

impl<T> IntoResultExt<T> for Result<T, io::Error> {
    fn into_result(self, path: Option<PathBuf>) -> (r: Result<T, Error>)
        ensures
            match self {
                Ok(v) => r == Ok::<T, Error>(v),
                Err(e) => r matches Err(x) && x.path == path && x.error == ErrorKind::Io(e),
            },
    {
        match self {
            Ok(v) => Ok(v),
            Err(e) => Err(Error { path, error: ErrorKind::Io(e) }),
        }
    }
}

} // verus!
