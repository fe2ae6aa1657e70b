//! Settings that select the write buffer's store and the runtime environment.

use vstd::prelude::*;
use vstd::std_specs::convert::TryFromSpecImpl;
use vstd::string::StringExecFns;

verus! {

/// What `str::to_lowercase` returns for a string with the given characters.
pub uninterp spec fn lowercase_of(text: Seq<char>) -> Seq<char>;

/// `str::to_lowercase`: the result depends on the characters of `text` alone,
/// so it is the named function of them. Nothing else is claimed of it.
#[verifier::external_body]
fn lowercase(text: &str) -> (lowered: String)
    ensures
        lowered@ == lowercase_of(text@),
{
    text.to_lowercase()
}

/// Everything the process is configured with.
#[derive(Clone, Copy, Debug)]
pub struct Settings {
    pub mem_table: MemTableImplSettings,
    pub env: Environment,
}

/// Settings of the sorted-array store.
#[derive(Clone, Copy, Debug)]
pub struct VectorMemTableSettings {
    /// Number of entries to reserve room for when the store is created.
    pub initial_vec_size: u128,
}

impl Default for VectorMemTableSettings {
    fn default() -> (settings: Self)
        ensures
            settings.initial_vec_size == 1024,
    {
        Self { initial_vec_size: 1024 }
    }
}

/// The store implementation that backs the write buffer.
#[derive(Clone, Copy, Debug)]
pub enum MemTableImplSettings {
    VectorMemTable(VectorMemTableSettings),
}

/// Settings of the write buffer and of the store chosen for it.
#[derive(Clone, Copy, Debug)]
pub struct MemTableSettings {
    pub table_impl: MemTableImplSettings,
    pub write_buffer_size_in_mb: u128,
}

impl Default for MemTableSettings {
    fn default() -> (settings: Self)
        ensures
            settings.table_impl == MemTableImplSettings::VectorMemTable(
                VectorMemTableSettings { initial_vec_size: 1024 },
            ),
            settings.write_buffer_size_in_mb == 0,
    {
        Self {
            table_impl: MemTableImplSettings::VectorMemTable(VectorMemTableSettings::default()),
            write_buffer_size_in_mb: 0,
        }
    }
}

/// The possible runtime environment for the application.
#[derive(Clone, Copy, Debug, PartialEq, Eq, Structural)]
pub enum Environment {
    Local,
    Production,
}

/// Tail of the message that rejects an unknown environment name.
pub open spec fn unsupported_suffix() -> Seq<char> {
    " is not a supported environment. Use either `local` or `production`."@
}

impl Environment {
    /// The canonical lower-case name of the environment.
    pub open spec fn name(self) -> Seq<char> {
        match self {
            Environment::Local => "local"@,
            Environment::Production => "production"@,
        }
    }

    /// What a lower-case name selects: the environment that bears it, or the
    /// rejection message for any other name.
    pub open spec fn parse_lowercase(name: Seq<char>) -> Result<Environment, Seq<char>> {
        if name == "local"@ {
            Ok(Environment::Local)
        } else if name == "production"@ {
            Ok(Environment::Production)
        } else {
            Err(name + unsupported_suffix())
        }
    }

    /// Whether `parsed` is what the lower-case `name` selects: the same
    /// environment, or an error that carries the same message.
    pub open spec fn selects(name: Seq<char>, parsed: Result<Environment, String>) -> bool {
        match Self::parse_lowercase(name) {
            Ok(env) => parsed == Ok::<Environment, String>(env),
            Err(message) => parsed is Err && parsed->Err_0@ == message,
        }
    }

    pub fn as_str(&self) -> (name: &'static str)
        ensures
            name@ == self.name(),
    {
        match self {
            Environment::Local => "local",
            Environment::Production => "production",
        }
    }

    /// The name of the configuration file that belongs to the environment.
    pub fn file_name(&self) -> (file: String)
        ensures
            file@ == self.name() + ".yaml"@,
    {
        String::from_str(self.as_str()).concat(".yaml")
    }

    /// Selects the environment from the value of the variable that names
    /// it: `local` where the variable is not set, else the environment that
    /// the value names, whatever its case.
    pub fn from_variable(value: Option<String>) -> (parsed: Result<Environment, String>)
        ensures
            match value {
                Some(name) => Self::selects(lowercase_of(name@), parsed),
                None => parsed == Ok::<Environment, String>(Environment::Local),
            },
    {
        match value {
            Some(name) => Environment::try_from(name),
            None => Ok(Environment::Local),
        }
    }

    /// Selects the environment named by an already lower-cased string.
    pub fn from_lowercase(name: String) -> (parsed: Result<Environment, String>)
        ensures
            Self::selects(name@, parsed),
    {
        if name == String::from_str("local") {
            Ok(Environment::Local)
        } else if name == String::from_str("production") {
            Ok(Environment::Production)
        } else {
            Err(
                name.concat(
                    " is not a supported environment. Use either `local` or `production`.",
                ),
            )
        }
    }
}

impl TryFrom<String> for Environment {
    type Error = String;

    /// Case-insensitive: the name is lower-cased first.
    fn try_from(s: String) -> (parsed: Result<Self, Self::Error>)
        ensures
            Environment::selects(lowercase_of(s@), parsed),
    {
        Environment::from_lowercase(lowercase(s.as_str()))
    }
}

/// The result of `try_from` is stated by characters in its own contract: a
/// message with the right characters is not one fixed `String` value, so no
/// spec function can name the `Result` that comes back.
impl TryFromSpecImpl<String> for Environment {
    open spec fn obeys_try_from_spec() -> bool {
        false
    }

    open spec fn try_from_spec(s: String) -> Result<Self, String> {
        choose|parsed: Result<Environment, String>|
            Environment::selects(lowercase_of(s@), parsed)
    }
}

} // verus!
