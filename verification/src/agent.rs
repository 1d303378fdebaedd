use vstd::prelude::*;

use crate::text::str_eq;
use crate::tool::Tool;

verus! {

/// The platform label an agent reports for itself.
#[derive(Debug, Clone, Copy, PartialEq, Eq, Structural)]
pub enum AgentPlatform {
    Linux,
    MacOS,
    Windows,
}

/// The capability payload an agent pushes upstream: the tools it found
/// available on its host.
#[derive(Debug)]
pub struct AgentCapabilities {
    pub available_tools: Option<Vec<Tool>>,
}

/// Maps an operating-system name, as the environment reports it, to the
/// platform label the backend understands; unknown names map to nothing.
pub fn platform_from_os(os: &str) -> (r: Option<AgentPlatform>)
    ensures
        os@ == "linux"@ ==> r == Some(AgentPlatform::Linux),
        os@ == "macos"@ ==> r == Some(AgentPlatform::MacOS),
        os@ == "windows"@ ==> r == Some(AgentPlatform::Windows),
        os@ != "linux"@ && os@ != "macos"@ && os@ != "windows"@ ==> r is None,
{
    proof {
        // The three names are pairwise distinct once their views are known.
        reveal_strlit("linux");
        reveal_strlit("macos");
        reveal_strlit("windows");
        assert("linux"@ =~= seq!['l', 'i', 'n', 'u', 'x']);
        assert("macos"@ =~= seq!['m', 'a', 'c', 'o', 's']);
        assert("windows"@ =~= seq!['w', 'i', 'n', 'd', 'o', 'w', 's']);
        assert("linux"@ != "macos"@);
        assert("linux"@ != "windows"@);
        assert("macos"@ != "windows"@);
    }
    if str_eq(os, "linux") {
        Some(AgentPlatform::Linux)
    } else if str_eq(os, "macos") {
        Some(AgentPlatform::MacOS)
    } else if str_eq(os, "windows") {
        Some(AgentPlatform::Windows)
    } else {
        None
    }
}

} // verus!
