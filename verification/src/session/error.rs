//! Why a message was refused.
use vstd::prelude::*;

verus! {

/// Why a message was refused. `E` is the error type of the prekey store.
#[derive(Clone, Copy, PartialEq, Eq)]
pub enum DecryptError<E> {
    /// The sender is not the peer of the session.
    RemoteIdentityChanged,
    /// The message was not sealed with the key at its position.
    InvalidSignature,
    /// The message cannot start a session, or was not sealed with the key that
    /// was kept for it.
    InvalidMessage,
    /// The key of the message was used before.
    DuplicateMessage,
    /// The message is too far ahead of the last one that was received.
    TooDistantFuture,
    /// The message is older than the first key that was kept.
    OutdatedMessage,
    /// The prekey store failed.
    PreKeyStoreError(E),
}

/// The name of an error.
pub open spec fn error_name<E>(e: DecryptError<E>) -> Seq<char> {
    match e {
        DecryptError::RemoteIdentityChanged => "RemoteIdentityChanged"@,
        DecryptError::InvalidSignature => "InvalidSignature"@,
        DecryptError::InvalidMessage => "InvalidMessage"@,
        DecryptError::DuplicateMessage => "DuplicateMessage"@,
        DecryptError::TooDistantFuture => "TooDistantFuture"@,
        DecryptError::OutdatedMessage => "OutdatedMessage"@,
        DecryptError::PreKeyStoreError(_) => "PreKeyStoreError"@,
    }
}

impl<E> DecryptError<E> {
    /// The name of the error.
    pub fn as_str(&self) -> (r: &str)
        ensures
            r@ == error_name(*self),
    {
        match *self {
            DecryptError::RemoteIdentityChanged => "RemoteIdentityChanged",
            DecryptError::InvalidSignature => "InvalidSignature",
            DecryptError::InvalidMessage => "InvalidMessage",
            DecryptError::DuplicateMessage => "DuplicateMessage",
            DecryptError::TooDistantFuture => "TooDistantFuture",
            DecryptError::OutdatedMessage => "OutdatedMessage",
            DecryptError::PreKeyStoreError(_) => "PreKeyStoreError",
        }
    }

    /// The text shown to a reader, given the text of the store's error.
    pub fn fmt(&self, cause: &str) -> (r: String)
        ensures
            r@ == (if self is PreKeyStoreError {
                "PrekeyStoreError: "@ + cause@
            } else {
                error_name(*self)
            }),
    {
        match self {
            DecryptError::PreKeyStoreError(_) => {
                let mut r = "PrekeyStoreError: ".to_owned();
                r.append(cause);
                r
            },
            _ => self.as_str().to_owned(),
        }
    }

    /// The same as [`DecryptError::as_str`].
    pub fn description(&self) -> (r: &str)
        ensures
            r@ == error_name(*self),
    {
        self.as_str()
    }

    /// The error of the store, where that is what failed.
    pub fn cause(&self) -> (r: Option<&E>)
        ensures
            match *self {
                DecryptError::PreKeyStoreError(e) => r == Some(&e),
                _ => r is None,
            },
    {
        match self {
            DecryptError::PreKeyStoreError(e) => Some(e),
            _ => None,
        }
    }

    /// The refusal that an error of the store leads to.
    pub fn from_error(err: E) -> (r: DecryptError<E>)
        ensures
            r == DecryptError::PreKeyStoreError(err),
    {
        DecryptError::PreKeyStoreError(err)
    }
}

/// The formatter of the standard library.
#[verifier::external_type_specification]
#[verifier::external_body]
pub struct ExFormatter<'a>(core::fmt::Formatter<'a>);

/// The formatting error of the standard library.
#[verifier::external_type_specification]
#[verifier::external_body]
pub struct ExFormatError(core::fmt::Error);

/// Calls `core::fmt::Formatter::write_str`.
///
/// Nothing is claimed of the outcome: whether a text can be written, and what becomes
/// of it, is up to what stands behind the formatter.
#[verifier::external_body]
fn write_text(f: &mut core::fmt::Formatter<'_>, text: &str) -> (r: Result<(), core::fmt::Error>) {
    f.write_str(text)
}

/// Calls `write!` with `{:?}`, and so the `Debug` impl of the store's error.
///
/// Nothing is claimed of the outcome: what that impl writes, and whether it fails, is
/// up to the type's author and to what stands behind the formatter.
#[verifier::external_body]
fn write_debug<E: core::fmt::Debug>(f: &mut core::fmt::Formatter<'_>, e: &E) -> (r: Result<
    (),
    core::fmt::Error,
>) {
    write!(f, "{:?}", e)
}

impl<E: core::fmt::Debug> core::fmt::Debug for DecryptError<E> {
    /// Writes the name of the error or, where the store failed, a prefix and then the
    /// `Debug` text of the store's error.
    fn fmt(&self, f: &mut core::fmt::Formatter<'_>) -> (r: Result<(), core::fmt::Error>) {
        match self {
            DecryptError::PreKeyStoreError(e) => match write_text(f, "PrekeyStoreError: ") {
                Ok(_) => write_debug(f, e),
                Err(failed) => Err(failed),
            },
            _ => write_text(f, self.as_str()),
        }
    }
}

} // verus!
