use approvals_db::{
    Cli, ExportGenesisStateCommand, ExportGenesisWasmCommand, RunCmd, SpecSource, Subcommand,
};

fn cli() -> Cli {
    Cli { subcommand: None, run: RunCmd { parachain_id: Some(100) } }
}

#[test]
fn the_known_networks_are_built_in() {
    assert_eq!(cli().load_spec("rococo-staging"), SpecSource::RococoStaging);
    assert_eq!(cli().load_spec("rococo-local"), SpecSource::RococoLocal);
    assert_eq!(cli().load_spec("rococo"), SpecSource::Rococo);
}

#[test]
fn no_id_stands_for_rococo() {
    assert_eq!(cli().load_spec(""), SpecSource::Rococo);
}

#[test]
fn any_other_id_is_a_path() {
    assert_eq!(
        cli().load_spec("specs/chain.json"),
        SpecSource::File("specs/chain.json".to_string())
    );
    assert_eq!(cli().load_spec("Rococo"), SpecSource::File("Rococo".to_string()));
}

#[test]
fn the_implementation_is_described() {
    assert_eq!(Cli::impl_name(), "Parity tmi");
    assert_eq!(Cli::impl_version(), "0.0.0");
    assert_eq!(Cli::support_url(), "https://github.com/tmi/tmi/issues/new");
    assert_eq!(Cli::copyright_start_year(), 2017);
    assert_eq!(Cli::executable_name(), "tmi");
}

#[test]
fn subcommands_are_told_apart() {
    let state = Subcommand::ExportGenesisState(ExportGenesisStateCommand {});
    let wasm = Subcommand::ExportGenesisWasm(ExportGenesisWasmCommand {});
    assert_ne!(state, wasm);
}
