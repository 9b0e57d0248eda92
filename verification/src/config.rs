//! What a run is asked to do, and the lines that it prints.

use crate::search::{exact_matches, folded_matches, search, search_case_insensitive};
use crate::substring::same_text;
use vstd::prelude::*;
use vstd::string::*;

verus! {

/// Why the arguments make no configuration.
#[derive(Debug, Clone, Copy, PartialEq, Eq, Structural)]
pub enum ConfigError {
    /// No argument follows the program's name.
    MissingQuery,
    /// A query was given and no path after it.
    MissingPath,
}

impl ConfigError {
    /// The words in which the error is reported.
    pub open spec fn text(self) -> Seq<char> {
        match self {
            ConfigError::MissingQuery => "Didn`t get query string"@,
            ConfigError::MissingPath => "Didn`t get file name"@,
        }
    }

    /// The words in which the error is reported.
    pub fn message(&self) -> (words: &'static str)
        ensures
            words@ == self.text(),
    {
        match self {
            ConfigError::MissingQuery => "Didn`t get query string",
            ConfigError::MissingPath => "Didn`t get file name",
        }
    }
}

/// What one run is asked to do. It is made once and only read after that.
#[derive(Debug)]
pub struct Config {
    file_name: String,
    query: String,
    case_insensitive: bool,
}

/// A configuration as plain values.
pub struct ConfigView {
    /// Path of the file to search.
    pub file_name: Seq<char>,
    /// The text to look for.
    pub query: Seq<char>,
    /// Whether lines and query are folded to lower case before they are compared.
    pub case_insensitive: bool,
}

impl View for Config {
    type V = ConfigView;

    closed spec fn view(&self) -> ConfigView {
        ConfigView {
            file_name: self.file_name@,
            query: self.query@,
            case_insensitive: self.case_insensitive,
        }
    }
}

/// Name of the environment variable that switches exact comparison on.
pub open spec fn case_variable() -> Seq<char> {
    "CASE_INSENSITIVE"@
}

/// Whether `environment`, a list of names with their values, defines `name`.
/// The value plays no part.
pub open spec fn defines(environment: Seq<(Seq<char>, Seq<char>)>, name: Seq<char>) -> bool {
    exists|i: int| 0 <= i < environment.len() && (#[trigger] environment[i]).0 == name
}

/// The configuration that `args` and `environment` ask for. `args[0]` is the
/// program's name, `args[1]` the query and `args[2]` the path; what follows
/// is ignored. Case is ignored unless the environment defines
/// `CASE_INSENSITIVE`.
pub open spec fn configured(
    args: Seq<Seq<char>>,
    environment: Seq<(Seq<char>, Seq<char>)>,
) -> Result<ConfigView, ConfigError> {
    if args.len() < 2 {
        Err(ConfigError::MissingQuery)
    } else if args.len() < 3 {
        Err(ConfigError::MissingPath)
    } else {
        Ok(
            ConfigView {
                file_name: args[2],
                query: args[1],
                case_insensitive: !defines(environment, case_variable()),
            },
        )
    }
}

/// The lines that a run with `config` prints for a file that holds `body`.
pub open spec fn selected(config: ConfigView, body: Seq<char>) -> Seq<Seq<char>> {
    if config.case_insensitive {
        folded_matches(config.query, body)
    } else {
        exact_matches(config.query, body)
    }
}

/// Whether one of the names in `environment` is `name`.
fn is_defined(environment: &[(String, String)], name: &str) -> (found: bool)
    ensures
        found == defines(environment.deep_view(), name@),
{
    let n: usize = environment.len();
    let mut i: usize = 0;
    while i < n
        invariant
            n == environment@.len(),
            i <= n,
            forall|j: int| 0 <= j < i ==> (#[trigger] environment.deep_view()[j]).0 != name@,
        decreases n - i,
    {
        if same_text(environment[i].0.as_str(), name) {
            assert(environment.deep_view()[i as int].0 == name@);
            return true;
        }
        i += 1;
    }
    false
}

impl Config {
    /// Makes the configuration of a run from the program's arguments, the
    /// program's own name first, and from the environment as a list of names
    /// with their values.
    pub fn new(args: Vec<String>, environment: &[(String, String)]) -> (made: Result<
        Config,
        ConfigError,
    >)
        ensures
            match made {
                Ok(config) => configured(args.deep_view(), environment.deep_view()) == Ok::<
                    ConfigView,
                    ConfigError,
                >(config@),
                Err(error) => configured(args.deep_view(), environment.deep_view()) == Err::<
                    ConfigView,
                    ConfigError,
                >(error),
            },
            args.len() < 2 ==> made is Err && made->Err_0 == ConfigError::MissingQuery,
            args.len() == 2 ==> made is Err && made->Err_0 == ConfigError::MissingPath,
            args.len() >= 3 ==> (made matches Ok(config) && config@.query == args[1]@
                && config@.file_name == args[2]@ && config@.case_insensitive == !defines(
                environment.deep_view(),
                case_variable(),
            )),
    {
        if args.len() < 2 {
            return Err(ConfigError::MissingQuery);
        }
        if args.len() < 3 {
            return Err(ConfigError::MissingPath);
        }
        assert(args.deep_view()[1] == args[1]@);
        assert(args.deep_view()[2] == args[2]@);
        let mut args = args;
        let file_name = args.remove(2);
        let query = args.remove(1);
        let case_insensitive = !is_defined(environment, "CASE_INSENSITIVE");
        Ok(Config { file_name, query, case_insensitive })
    }

    /// Path of the file to search.
    pub fn file_name(&self) -> (path: &str)
        ensures
            path@ == self@.file_name,
    {
        self.file_name.as_str()
    }

    /// The text to look for.
    pub fn query(&self) -> (query: &str)
        ensures
            query@ == self@.query,
    {
        self.query.as_str()
    }

    /// Whether lines and query are folded to lower case before they are
    /// compared.
    pub fn case_insensitive(&self) -> (folding: bool)
        ensures
            folding == self@.case_insensitive,
    {
        self.case_insensitive
    }
}

/// The lines of `content` that a run with `config` prints, in the order in
/// which it prints them: the case-ignoring search where the configuration
/// asks for it, the exact search where it does not.
pub fn run<'a>(config: &Config, content: &'a str) -> (found: Vec<&'a str>)
    ensures
        found.deep_view() == selected(config@, content@),
{
    if config.case_insensitive {
        search_case_insensitive(config.query.as_str(), content)
    } else {
        search(config.query.as_str(), content)
    }
}

/// The environment decides how a run compares: with case ignored where it
/// does not define `CASE_INSENSITIVE`, exactly where it defines it, whatever
/// the value.
pub proof fn lemma_case_variable_decides(
    args: Seq<Seq<char>>,
    environment: Seq<(Seq<char>, Seq<char>)>,
    body: Seq<char>,
)
    requires
        args.len() >= 3,
    ensures
        configured(args, environment) is Ok,
        !defines(environment, case_variable()) ==> selected(
            configured(args, environment)->Ok_0,
            body,
        ) == folded_matches(args[1], body),
        defines(environment, case_variable()) ==> selected(
            configured(args, environment)->Ok_0,
            body,
        ) == exact_matches(args[1], body),
{
}

/// A variable is defined by its name alone: adding it with any value, the
/// empty one too, defines it.
pub proof fn lemma_any_value_defines(
    environment: Seq<(Seq<char>, Seq<char>)>,
    name: Seq<char>,
    value: Seq<char>,
)
    ensures
        defines(environment.push((name, value)), name),
{
    let extended = environment.push((name, value));
    assert(extended[environment.len() as int].0 == name);
}

} // verus!
