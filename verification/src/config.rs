//! The run configuration read at start-up: the simulation's rate and
//! thread count, and which serializer and sender carry the state out, with
//! the checks a configuration must pass before a run starts.
use vstd::prelude::*;

verus! {

/// One entry of a sender's options: its key, and its value where that value
/// is a string (`None` for a value of any other kind).
pub struct SenderOption {
    pub key: String,
    pub text: Option<String>,
}

/// The first entry of `opts` whose key is `key`.
pub open spec fn option_entry(opts: Seq<SenderOption>, key: Seq<char>) -> Option<SenderOption>
    decreases opts.len(),
{
    if opts.len() == 0 {
        None
    } else if opts[0].key@ == key {
        Some(opts[0])
    } else {
        option_entry(opts.drop_first(), key)
    }
}

/// The string value stored under `key`, if the key is present with a string
/// value.
pub open spec fn option_text(opts: Seq<SenderOption>, key: Seq<char>) -> Option<Seq<char>> {
    match option_entry(opts, key) {
        Some(o) => match o.text {
            Some(t) => Some(t@),
            None => None,
        },
        None => None,
    }
}

/// Compares two strings character by character.
pub fn same_text(a: &str, b: &str) -> (r: bool)
    ensures
        r == (a@ == b@),
{
    a.to_owned() == b.to_owned()
}

/// Finds the first entry of `opts` with the given key.
pub fn find_option<'a>(opts: &'a Vec<SenderOption>, key: &str) -> (r: Option<&'a SenderOption>)
    ensures
        match r {
            Some(o) => option_entry(opts@, key@) == Some(*o),
            None => option_entry(opts@, key@) is None,
        },
{
    let wanted = key.to_owned();
    let mut i: usize = 0;
    assert(opts@.subrange(0, opts@.len() as int) =~= opts@);
    while i < opts.len()
        invariant
            i <= opts@.len(),
            wanted@ == key@,
            option_entry(opts@, key@) == option_entry(opts@.subrange(i as int, opts@.len() as int), key@),
        decreases opts@.len() - i,
    {
        let ghost rest = opts@.subrange(i as int, opts@.len() as int);
        assert(rest.drop_first() =~= opts@.subrange(i + 1, opts@.len() as int));
        assert(rest[0] == opts@[i as int]);
        if opts[i].key == wanted {
            return Some(&opts[i]);
        }
        i = i + 1;
    }
    assert(opts@.subrange(i as int, opts@.len() as int).len() == 0);
    None
}

/// Tells whether a sender's options carry the given key.
pub fn has_option(options: &Option<Vec<SenderOption>>, key: &str) -> (r: bool)
    ensures
        r == (options is Some && option_entry(options->0@, key@) is Some),
{
    match options {
        Some(opts) => find_option(opts, key).is_some(),
        None => false,
    }
}

/// The string stored under a key of a sender's options, if there is one.
pub fn option_string(options: &Option<Vec<SenderOption>>, key: &str) -> (r: Option<String>)
    ensures
        match r {
            Some(t) => options is Some && option_text(options->0@, key@) == Some(t@),
            None => options is None || option_text(options->0@, key@) is None,
        },
{
    match options {
        Some(opts) => match find_option(opts, key) {
            Some(entry) => match &entry.text {
                Some(t) => Some(t.clone()),
                None => None,
            },
            None => None,
        },
        None => None,
    }
}

/// How the simulation runs: worker threads and frames per second.
pub struct SimulationConfig {
    pub threads: u32,
    pub fps: u32,
}

/// The serializer named in the configuration (e.g. "binary", "json").
pub struct SerializerConfig {
    pub type_: String,
}

/// The sender named in the configuration (e.g. "file", "console"), with its
/// options.
pub struct SenderConfig {
    pub type_: String,
    pub options: Option<Vec<SenderOption>>,
}

/// The serializer and the sender of a run.
pub struct TransportConfig {
    pub serializer: SerializerConfig,
    pub sender: SenderConfig,
}

/// Why a configuration was refused.
pub enum ConfigError {
    ValidationError(String),
}

/// The message of the first check that the configuration fails, if any:
/// the frame rate must be positive, the thread count must be positive, and a
/// file sender must name a `path` in its options.
pub open spec fn config_problem(simulation: SimulationConfig, transport: TransportConfig) -> Option<Seq<char>> {
    if simulation.fps == 0 {
        Some("Simulation FPS cannot be zero."@)
    } else if simulation.threads == 0 {
        Some("Simulation threads cannot be zero."@)
    } else if transport.sender.type_@ == "file"@ && (transport.sender.options is None
        || option_entry(transport.sender.options->0@, "path"@) is None) {
        Some("File sender requires an 'options.path' field."@)
    } else {
        None
    }
}

/// Checks a loaded configuration; on failure the error carries the message
/// of the first check that failed.
pub fn validate_config(simulation: &SimulationConfig, transport: &TransportConfig) -> (r: Result<(), ConfigError>)
    ensures
        r is Ok <==> config_problem(*simulation, *transport) is None,
        r matches Err(ConfigError::ValidationError(m)) ==> config_problem(*simulation, *transport) == Some(m@),
{
    if simulation.fps == 0 {
        return Err(ConfigError::ValidationError("Simulation FPS cannot be zero.".to_owned()));
    }
    if simulation.threads == 0 {
        return Err(ConfigError::ValidationError("Simulation threads cannot be zero.".to_owned()));
    }
    if same_text(transport.sender.type_.as_str(), "file") && !has_option(&transport.sender.options, "path") {
        return Err(ConfigError::ValidationError("File sender requires an 'options.path' field.".to_owned()));
    }
    Ok(())
}

} // verus!
