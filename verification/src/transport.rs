//! Choosing the serializer and the sender of a run by the names given in
//! the configuration.
use vstd::prelude::*;
use crate::config::{SenderOption, option_text, option_string, same_text};

verus! {

/// What `str::to_lowercase` gives for a string: its characters after
/// Unicode lower-case mapping.
pub uninterp spec fn lowercase(s: Seq<char>) -> Seq<char>;

/// Calls `str::to_lowercase`. Trusted: the result's characters are
/// `lowercase` of the argument's characters; the mapping itself is Unicode's
/// and is not written out here.
#[verifier::external_body]
fn to_lowercase(s: &str) -> (r: String)
    ensures
        r@ == lowercase(s@),
{
    s.to_lowercase()
}

/// Why a serializer or a sender could not be set up.
pub enum TransportError {
    /// The options of a sender lack something it needs.
    ConfigError(String),
    /// The configuration names a kind that does not exist.
    UnsupportedType(String),
}

/// The serializers that can be named in a configuration.
#[derive(PartialEq, Eq, Structural, Debug, Clone, Copy)]
pub enum SerializerKind {
    Binary,
    Json,
}

/// A sender that prints what it is given.
#[derive(PartialEq, Eq, Structural, Debug, Clone, Copy)]
pub struct ConsoleSender;

/// The senders that can be named in a configuration, with what each needs
/// to start.
pub enum SenderKind {
    /// Writes to the file at this path.
    File(String),
    Console(ConsoleSender),
}

/// `e` reports an unsupported kind with message `msg`.
pub open spec fn unsupported(e: TransportError, msg: Seq<char>) -> bool {
    match e {
        TransportError::UnsupportedType(m) => m@ == msg,
        _ => false,
    }
}

/// `e` reports missing options with message `msg`.
pub open spec fn refused_options(e: TransportError, msg: Seq<char>) -> bool {
    match e {
        TransportError::ConfigError(m) => m@ == msg,
        _ => false,
    }
}

/// The path of a file sender; `None` for a sender of another kind.
pub open spec fn file_path_of(k: SenderKind) -> Option<Seq<char>> {
    match k {
        SenderKind::File(p) => Some(p@),
        _ => None,
    }
}

/// The serializer a lower-cased name selects.
pub open spec fn serializer_named(lowered: Seq<char>) -> Option<SerializerKind> {
    if lowered == "binary"@ {
        Some(SerializerKind::Binary)
    } else if lowered == "json"@ {
        Some(SerializerKind::Json)
    } else {
        None
    }
}

/// Picks the serializer for a name that has already been lower-cased; the
/// name as written goes into the error message.
pub fn serializer_for(lowered: &str, name: &str) -> (r: Result<SerializerKind, TransportError>)
    ensures
        match r {
            Ok(k) => serializer_named(lowered@) == Some(k),
            Err(e) => serializer_named(lowered@) is None
                && unsupported(e, "Unsupported serializer type: "@ + name@),
        },
{
    if same_text(lowered, "binary") {
        Ok(SerializerKind::Binary)
    } else if same_text(lowered, "json") {
        Ok(SerializerKind::Json)
    } else {
        let mut m = "Unsupported serializer type: ".to_owned();
        m.append(name);
        Err(TransportError::UnsupportedType(m))
    }
}

/// Picks the serializer named in a configuration, ignoring case.
pub fn create_serializer(name: &str) -> (r: Result<SerializerKind, TransportError>)
    ensures
        match r {
            Ok(k) => serializer_named(lowercase(name@)) == Some(k),
            Err(e) => serializer_named(lowercase(name@)) is None
                && unsupported(e, "Unsupported serializer type: "@ + name@),
        },
{
    let lowered = to_lowercase(name);
    serializer_for(lowered.as_str(), name)
}

/// The message of a file sender whose options give no path.
pub open spec fn missing_path_message() -> Seq<char> {
    "FileSender requires 'options.path' string"@
}

/// The path a file sender writes to: the string stored under `path` in its
/// options.
pub fn file_sender_path(options: &Option<Vec<SenderOption>>) -> (r: Result<String, TransportError>)
    ensures
        match r {
            Ok(p) => options is Some && option_text(options->0@, "path"@) == Some(p@),
            Err(e) => (options is None || option_text(options->0@, "path"@) is None)
                && refused_options(e, missing_path_message()),
        },
{
    match option_string(options, "path") {
        Some(p) => Ok(p),
        None => Err(TransportError::ConfigError("FileSender requires 'options.path' string".to_owned())),
    }
}

impl ConsoleSender {
    /// A console sender needs no options, so it always starts.
    pub fn new(options: &Option<Vec<SenderOption>>) -> (r: Result<ConsoleSender, TransportError>)
        ensures
            r is Ok,
    {
        Ok(ConsoleSender)
    }
}

/// Which sender a lower-cased name selects: 1 for a file, 2 for the
/// console, 0 for none.
pub open spec fn sender_named(lowered: Seq<char>) -> int {
    if lowered == "file"@ {
        1
    } else if lowered == "console"@ {
        2
    } else {
        0
    }
}

/// Sets up the sender for a name that has already been lower-cased.
pub fn sender_for(lowered: &str, name: &str, options: &Option<Vec<SenderOption>>) -> (r: Result<SenderKind, TransportError>)
    ensures
        sender_named(lowered@) == 1 ==> match r {
            Ok(k) => options is Some && file_path_of(k) is Some
                && option_text(options->0@, "path"@) == file_path_of(k),
            Err(e) => (options is None || option_text(options->0@, "path"@) is None)
                && refused_options(e, missing_path_message()),
        },
        sender_named(lowered@) == 2 ==> r matches Ok(SenderKind::Console(_)),
        sender_named(lowered@) == 0 ==> (r is Err && unsupported(r->Err_0, "Unsupported sender type: "@ + name@)),
{
    if same_text(lowered, "file") {
        match file_sender_path(options) {
            Ok(p) => Ok(SenderKind::File(p)),
            Err(e) => Err(e),
        }
    } else if same_text(lowered, "console") {
        match ConsoleSender::new(options) {
            Ok(c) => Ok(SenderKind::Console(c)),
            Err(e) => Err(e),
        }
    } else {
        let mut m = "Unsupported sender type: ".to_owned();
        m.append(name);
        Err(TransportError::UnsupportedType(m))
    }
}

/// Sets up the sender named in a configuration, ignoring case.
pub fn create_sender(name: &str, options: &Option<Vec<SenderOption>>) -> (r: Result<SenderKind, TransportError>)
    ensures
        sender_named(lowercase(name@)) == 1 ==> match r {
            Ok(k) => options is Some && file_path_of(k) is Some
                && option_text(options->0@, "path"@) == file_path_of(k),
            Err(e) => (options is None || option_text(options->0@, "path"@) is None)
                && refused_options(e, missing_path_message()),
        },
        sender_named(lowercase(name@)) == 2 ==> r matches Ok(SenderKind::Console(_)),
        sender_named(lowercase(name@)) == 0 ==> (r is Err && unsupported(r->Err_0, "Unsupported sender type: "@ + name@)),
{
    let lowered = to_lowercase(name);
    sender_for(lowered.as_str(), name, options)
}

} // verus!
