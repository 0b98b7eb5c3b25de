//! The command line as plain values: the subcommands and their options,
//! and the rule that makes a bare `tpb <query>` a search.
use crate::discover;
use crate::text::{chars_of, has_prefix, starts_with_str};
use vstd::prelude::*;

verus! {

/// The parsed command line.
pub struct Cli {
    /// Disable ANSI styling.
    pub no_color: bool,
    pub command: CommandKind,
}

pub enum CommandKind {
    /// Search configured endpoints concurrently.
    Search(SearchArgs),
    /// Find and verify candidate endpoints using the local Shodan CLI.
    Discover(DiscoverArgs),
    /// Manage locally cached search results and discovered endpoints.
    Cache(CacheArgs),
}

/// The discovery options shared by `search` and `discover`.
pub struct DiscoveryOptions {
    /// Shodan queries identifying a candidate service; required for discovery.
    pub shodan_queries: Vec<String>,
    /// Maximum Shodan matches per query to inspect (default 50).
    pub shodan_limit: usize,
    /// Maximum simultaneous probes or search requests (default 12).
    pub concurrency: usize,
    /// HTTP timeout in seconds (default 10).
    pub timeout: u64,
    /// Show rejected candidates and request failures.
    pub verbose: bool,
}

pub struct DiscoverArgs {
    pub discovery: DiscoveryOptions,
    /// Emit machine-readable JSON.
    pub json: bool,
}

pub struct SearchArgs {
    /// Search terms (at least one).
    pub query: Vec<String>,
    /// Full endpoint URLs; may be given more than once.
    pub indexer: Vec<String>,
    /// Discover candidate endpoints with Shodan before searching.
    pub shodan: bool,
    pub discovery: DiscoveryOptions,
    /// API key added as the `apikey` parameter.
    pub api_key: Option<String>,
    /// Maximum combined results to print (default 40).
    pub limit: usize,
    /// Concurrent endpoint count per fallback batch (default 10).
    pub fanout: usize,
    /// Results requested from each endpoint before combining (default 20).
    pub per_source_limit: usize,
    /// Do not read or write the local search-result cache.
    pub no_cache: bool,
    /// Emit machine-readable JSON.
    pub json: bool,
}

pub struct CacheArgs {
    pub command: CacheCommand,
}

pub enum CacheCommand {
    /// Remove cached search results; with `include_indexers`, also the
    /// endpoints saved by a previous `discover`.
    Clear { include_indexers: bool },
}

/// The words that name a subcommand (or ask for help).
pub open spec fn is_command_word(word: Seq<char>) -> bool {
    word == "search"@ || word == "discover"@ || word == "cache"@ || word == "help"@
}

/// Whether `search` is put in front of the arguments: the first argument
/// is there, is not a subcommand, and is not an option.
pub open spec fn inserts_search(first: Option<Seq<char>>) -> bool {
    match first {
        Some(w) => !is_command_word(w) && !has_prefix(w, "-"@),
        None => false,
    }
}

fn is_command_word_exec(word: &str) -> (r: bool)
    ensures
        r == is_command_word(word@),
{
    let w = chars_of(word);
    crate::text::chars_are(w.as_slice(), "search") || crate::text::chars_are(w.as_slice(), "discover")
        || crate::text::chars_are(w.as_slice(), "cache") || crate::text::chars_are(w.as_slice(), "help")
}

/// Treats an unrecognised first argument as a search query, so `tpb fedora`
/// means `tpb search fedora`. `first` is the first argument after the
/// program name, when there is one and it is valid text.
pub fn should_insert_search(first: Option<&str>) -> (r: bool)
    ensures
        r == inserts_search(
            match first {
                Some(w) => Some(w@),
                None => None,
            },
        ),
{
    match first {
        Some(word) => {
            let w = chars_of(word);
            !is_command_word_exec(word) && !starts_with_str(w.as_slice(), "-")
        },
        None => false,
    }
}

/// The discovery settings that the command line gives.
pub fn discovery_options(options: DiscoveryOptions) -> (r: discover::DiscoveryOptions)
    ensures
        r.shodan_queries@ == options.shodan_queries@,
        r.shodan_limit == options.shodan_limit,
        r.concurrency == options.concurrency,
        r.timeout_secs == options.timeout,
        r.verbose == options.verbose,
{
    discover::DiscoveryOptions {
        shodan_queries: options.shodan_queries,
        shodan_limit: options.shodan_limit,
        concurrency: options.concurrency,
        timeout_secs: options.timeout,
        verbose: options.verbose,
    }
}

} // verus!
