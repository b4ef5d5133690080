//! The command line of the collator.
use vstd::prelude::*;

verus! {

/// Sub-commands supported by the collator.
#[derive(Debug, PartialEq)]
pub enum Subcommand {
    /// Export the genesis state of the parachain.
    ExportGenesisState(ExportGenesisStateCommand),
    /// Export the genesis wasm of the parachain.
    ExportGenesisWasm(ExportGenesisWasmCommand),
}

/// Command for exporting the genesis state of the parachain
#[derive(Debug, PartialEq)]
pub struct ExportGenesisStateCommand {}

/// Command for exporting the genesis wasm file.
#[derive(Debug, PartialEq)]
pub struct ExportGenesisWasmCommand {}

/// What a run of the collator is told.
#[derive(Debug, PartialEq)]
pub struct RunCmd {
    /// Id of the parachain this collator collates for.
    pub parachain_id: Option<u32>,
}

/// The parsed command line.
#[derive(Debug, PartialEq)]
pub struct Cli {
    pub subcommand: Option<Subcommand>,
    pub run: RunCmd,
}

/// Where the spec of a chain comes from.
#[derive(Debug, PartialEq)]
pub enum SpecSource {
    /// The built-in spec of the Rococo staging network.
    RococoStaging,
    /// The built-in spec of a local Rococo network.
    RococoLocal,
    /// The built-in spec of Rococo.
    Rococo,
    /// A JSON file at the given path.
    File(String),
}

/// What a [`SpecSource`] stands for.
pub enum Source {
    RococoStaging,
    RococoLocal,
    Rococo,
    File(Seq<char>),
}

impl View for SpecSource {
    type V = Source;

    open spec fn view(&self) -> Source {
        match self {
            SpecSource::RococoStaging => Source::RococoStaging,
            SpecSource::RococoLocal => Source::RococoLocal,
            SpecSource::Rococo => Source::Rococo,
            SpecSource::File(path) => Source::File(path@),
        }
    }
}

/// The source that an id stands for: one of the networks that are known by name, or a file. No id
/// at all stands for Rococo.
pub open spec fn source_of(id: Seq<char>) -> Source {
    if id.len() == 0 || id == "rococo"@ {
        Source::Rococo
    } else if id == "rococo-staging"@ {
        Source::RococoStaging
    } else if id == "rococo-local"@ {
        Source::RococoLocal
    } else {
        Source::File(id)
    }
}

impl Cli {
    /// The name of this implementation.
    pub fn impl_name() -> (r: String)
        ensures
            r@ == "Parity tmi"@,
    {
        "Parity tmi".to_owned()
    }

    /// The version of this implementation.
    pub fn impl_version() -> (r: String)
        ensures
            r@ == "0.0.0"@,
    {
        "0.0.0".to_owned()
    }

    /// Where problems are reported.
    pub fn support_url() -> (r: String)
        ensures
            r@ == "https://github.com/tmi/tmi/issues/new"@,
    {
        "https://github.com/tmi/tmi/issues/new".to_owned()
    }

    /// The first year of the copyright.
    pub fn copyright_start_year() -> (r: i32)
        ensures
            r == 2017,
    {
        2017
    }

    /// The name of the executable.
    pub fn executable_name() -> (r: String)
        ensures
            r@ == "tmi"@,
    {
        "tmi".to_owned()
    }

    /// Where the chain spec with the given id is loaded from.
    pub fn load_spec(&self, id: &str) -> (r: SpecSource)
        ensures
            r@ == source_of(id@),
            id@.len() == 0 ==> r is Rococo,
            id@ == "rococo"@ ==> r is Rococo,
            id@ == "rococo-staging"@ ==> r is RococoStaging,
            id@ == "rococo-local"@ ==> r is RococoLocal,
            id@.len() > 0 && id@ != "rococo"@ && id@ != "rococo-staging"@ && id@
                != "rococo-local"@ ==> (r matches SpecSource::File(path) && path@ == id@),
    {
        proof {
            reveal_strlit("rococo");
            reveal_strlit("rococo-staging");
            reveal_strlit("rococo-local");
            assert("rococo"@.len() == 6);
            assert("rococo-staging"@.len() == 14);
            assert("rococo-local"@.len() == 12);
        }
        let id: String = if id.is_empty() {
            "rococo".to_owned()
        } else {
            id.to_owned()
        };
        if id == "rococo-staging".to_owned() {
            SpecSource::RococoStaging
        } else if id == "rococo-local".to_owned() {
            SpecSource::RococoLocal
        } else if id == "rococo".to_owned() {
            SpecSource::Rococo
        } else {
            SpecSource::File(id)
        }
    }
}

/// Ids that name no network are told apart: two of them that give the same file are the same id,
/// character for character. Every file is given by some id, namely by its path, unless that is the
/// name of a network.
pub proof fn a_file_is_given_by_its_path(id: Seq<char>, other: Seq<char>, path: Seq<char>)
    requires
        id != "rococo"@,
        id != "rococo-staging"@,
        id != "rococo-local"@,
        id.len() > 0,
    ensures
        source_of(id) == Source::File(id),
        source_of(id) == source_of(other) <==> id == other,
        source_of(id) == Source::File(path) <==> id == path,
{
}

} // verus!
