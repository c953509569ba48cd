//! The external programs the tool needs, and the message when some are missing.
//!
//! Probing for the programs is left to the caller.
use vstd::prelude::*;
use vstd::string::StringExecFns;

use crate::text::joined;

verus! {

/// The MKVToolNix programs the tool runs.
pub const REQUIRED_TOOLS: [&'static str; 2] = ["mkvmerge", "mkvextract"];

/// How to install the missing programs.
pub const INSTALL_HELP: &'static str = "\n\nPlease install MKVToolNix to use this CLI:\n  - Ubuntu/Debian: sudo apt install mkvtoolnix\n  - Arch Linux:    sudo pacman -S mkvtoolnix-cli\n  - Fedora:        sudo dnf install mkvtoolnix\n  - macOS:         brew install mkvtoolnix\n  - Official site: https://mkvtoolnix.download/";

/// Opening of the message when programs are missing.
pub const MISSING_TOOLS: &'static str = "Missing required system tool(s): ";

/// The names of the required programs.
pub open spec fn required_tools() -> Seq<Seq<char>> {
    seq!["mkvmerge"@, "mkvextract"@]
}

/// Tool `i` was found; tools past the end of `available` were not.
pub open spec fn is_available(available: Seq<bool>, i: int) -> bool {
    i < available.len() && available[i]
}

/// The names of the first `n` required tools that were not found, in order.
pub open spec fn missing_tools(available: Seq<bool>, n: int) -> Seq<Seq<char>>
    decreases n,
{
    if n <= 0 {
        seq![]
    } else if is_available(available, n - 1) {
        missing_tools(available, n - 1)
    } else {
        missing_tools(available, n - 1).push(required_tools()[n - 1])
    }
}

/// The message naming the missing tools and how to install them.
pub open spec fn missing_tools_message(missing: Seq<Seq<char>>) -> Seq<char> {
    MISSING_TOOLS@ + joined(missing, ", "@) + INSTALL_HELP@
}

/// Verifies that all required external tools were found: `available[i]` tells whether
/// `REQUIRED_TOOLS[i]` answered. Otherwise the error names the missing ones, in order,
/// with installation instructions.
pub fn ensure_dependencies(available: &Vec<bool>) -> (r: Result<(), String>)
    ensures
        r is Ok <==> missing_tools(available@, 2).len() == 0,
        r matches Err(m) ==> m@ == missing_tools_message(missing_tools(available@, 2)),
{
    let mut missing: Vec<&'static str> = Vec::new();
    let mut i: usize = 0;
    let tools = REQUIRED_TOOLS;
    assert(tools@.len() == 2);
    assert(tools@[0]@ == "mkvmerge"@ && tools@[1]@ == "mkvextract"@);
    while i < 2
        invariant
            i <= 2,
            tools == REQUIRED_TOOLS,
            tools@[0]@ == "mkvmerge"@,
            tools@[1]@ == "mkvextract"@,
            missing@.map_values(|t: &'static str| t@) == missing_tools(available@, i as int),
        decreases 2 - i,
    {
        let found = i < available.len() && available[i];
        if !found {
            missing.push(tools[i]);
        }
        i = i + 1;
        assert(missing@.map_values(|t: &'static str| t@) =~= missing_tools(available@, i as int));
    }
    if missing.len() == 0 {
        return Ok(());
    }
    let mut m = String::from_str(MISSING_TOOLS);
    let mut k: usize = 0;
    let ghost names = missing@.map_values(|t: &'static str| t@);
    while k < missing.len()
        invariant
            k <= missing.len(),
            names == missing@.map_values(|t: &'static str| t@),
            m@ == MISSING_TOOLS@ + joined(names.take(k as int), ", "@),
        decreases missing.len() - k,
    {
        if k > 0 {
            m.append(", ");
        }
        m.append(missing[k]);
        k = k + 1;
        proof {
            let t = names.take(k as int);
            assert(t.drop_last() =~= names.take(k - 1));
            assert(t.last() == missing@[k - 1]@);
            if k == 1 {
                assert(joined(names.take(0), ", "@) =~= Seq::<char>::empty());
            }
            assert(m@ =~= MISSING_TOOLS@ + joined(t, ", "@));
        }
    }
    assert(names.take(missing.len() as int) =~= names);
    m.append(INSTALL_HELP);
    Err(m)
}

} // verus!
