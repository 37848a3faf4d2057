//! File formats a file source can be written in.

use vstd::prelude::*;

verus! {

/// A format that a configuration file may be written in. Parsing the text
/// of a file is left to the surrounding application; the store only needs
/// the format's identity and its conventional file extensions.
#[derive(Debug, Clone, Copy, PartialEq, Eq, Hash, Structural)]
pub enum FileFormat {
    /// TOML
    Toml,
    /// YAML
    Yaml,
}

impl FileFormat {
    /// The file extensions conventionally used for this format.
    pub fn extensions(&self) -> (r: Vec<&'static str>)
        ensures
            match self {
                FileFormat::Toml => r@.len() == 1 && r@[0]@ == "toml"@,
                FileFormat::Yaml => r@.len() == 2 && r@[0]@ == "yaml"@ && r@[1]@ == "yml"@,
            },
    {
        match self {
            FileFormat::Toml => vec!["toml"],
            FileFormat::Yaml => vec!["yaml", "yml"],
        }
    }
}

} // verus!
