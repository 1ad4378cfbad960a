//! The user-supplied configuration: issue codes and required branch prefixes.

use vstd::prelude::*;

verus! {

/// The mathematical content of a [`Config`]: the code strings and the
/// branch-prefix strings, each as a sequence of characters, in
/// configuration order.
pub struct SpecConfig {
    pub codes: Seq<Seq<char>>,
    pub branch_prefixes: Seq<Seq<char>>,
}

/// What drives a resolution: `codes` is the ordered list of issue codes
/// tried at each segment boundary, and `branch_prefixes`, when non-empty,
/// restricts extraction to branches that start with one of its entries
/// followed by a slash.
#[derive(Debug)]
pub struct Config {
    pub codes: Vec<String>,

    pub branch_prefixes: Vec<String>,
}

impl View for Config {
    type V = SpecConfig;

    open spec fn view(&self) -> SpecConfig {
        SpecConfig {
            codes: self.codes.deep_view(),
            branch_prefixes: self.branch_prefixes.deep_view(),
        }
    }
}

/// The candidate configuration file names, in the order they are probed
/// in the work directory of a repository.
pub open spec fn spec_config_filenames() -> Seq<Seq<char>> {
    seq![
        ".bureaucrat-config.yaml"@,
        ".bureaucrat-config.yml"@,
        ".bureaucrat.yaml"@,
        ".bureaucrat.yml"@,
    ]
}

/// The candidate configuration file names, in probing order.
pub fn config_filenames() -> (r: Vec<&'static str>)
    ensures
        r.deep_view() =~= spec_config_filenames(),
{
    let r = vec![
        ".bureaucrat-config.yaml",
        ".bureaucrat-config.yml",
        ".bureaucrat.yaml",
        ".bureaucrat.yml",
    ];
    assert(r.deep_view() =~= spec_config_filenames());
    r
}

} // verus!
