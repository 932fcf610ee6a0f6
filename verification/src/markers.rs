use vstd::prelude::*;

use crate::paths::str_eq;
use crate::ProjectTypes;

verus! {

/// The display name of each marker kind.
pub open spec fn marker_name(k: ProjectTypes) -> Seq<char> {
    match k {
        ProjectTypes::Git => ".git"@,
        ProjectTypes::NodeModules => "node_modules"@,
        ProjectTypes::Target => "target"@,
        ProjectTypes::_Build => "_build"@,
        ProjectTypes::Build => "build"@,
        ProjectTypes::Dist => "dist"@,
        ProjectTypes::Vendor => "vendor"@,
        ProjectTypes::Out => "out"@,
        ProjectTypes::ZigOut => "zig-out"@,
    }
}

/// The fixed marker vocabulary, in matching order.
pub open spec fn marker_names() -> Seq<Seq<char>> {
    seq![
        ".git"@,
        "node_modules"@,
        "target"@,
        "_build"@,
        "build"@,
        "dist"@,
        "vendor"@,
        "out"@,
        "zig-out"@,
    ]
}

pub const MARKER_COUNT: usize = 9;

pub open spec fn is_marker_name(s: Seq<char>) -> bool {
    marker_names().contains(s)
}

/// No name stands twice in the vocabulary.
pub proof fn lemma_marker_names_distinct()
    ensures
        forall|x: int, y: int|
            0 <= x < y < marker_names().len() ==> marker_names()[x] != marker_names()[y],
{
    reveal_strlit(".git");
    reveal_strlit("node_modules");
    reveal_strlit("target");
    reveal_strlit("_build");
    reveal_strlit("build");
    reveal_strlit("dist");
    reveal_strlit("vendor");
    reveal_strlit("out");
    reveal_strlit("zig-out");
    assert forall|x: int, y: int|
        0 <= x < y < marker_names().len() implies marker_names()[x] != marker_names()[y] by {
        assert(".git"@.len() == 4);
        assert("node_modules"@.len() == 12);
        assert("target"@.len() == 6);
        assert("_build"@.len() == 6);
        assert("build"@.len() == 5);
        assert("dist"@.len() == 4);
        assert("vendor"@.len() == 6);
        assert("out"@.len() == 3);
        assert("zig-out"@.len() == 7);
        assert(".git"@[0] == '.' && "dist"@[0] == 'd');
        assert("target"@[0] == 't' && "_build"@[0] == '_' && "vendor"@[0] == 'v');
    }
}

/// The marker name at a given position of the vocabulary.
pub fn marker_string(i: usize) -> (r: String)
    requires
        i < MARKER_COUNT,
    ensures
        r@ == marker_names()[i as int],
{
    if i == 0 {
        String::from_str(".git")
    } else if i == 1 {
        String::from_str("node_modules")
    } else if i == 2 {
        String::from_str("target")
    } else if i == 3 {
        String::from_str("_build")
    } else if i == 4 {
        String::from_str("build")
    } else if i == 5 {
        String::from_str("dist")
    } else if i == 6 {
        String::from_str("vendor")
    } else if i == 7 {
        String::from_str("out")
    } else {
        String::from_str("zig-out")
    }
}

impl ProjectTypes {
    /// Parse a marker directory name; `Err` exactly on strings outside the
    /// vocabulary.
    pub fn from_str(s: &str) -> (r: Result<ProjectTypes, ()>)
        ensures
            match r {
                Ok(k) => marker_name(k) == s@ && is_marker_name(s@),
                Err(_) => !is_marker_name(s@),
            },
    {
        if str_eq(s, ".git") {
            proof {
                assert(marker_names()[0] == ".git"@);
            }
            Ok(ProjectTypes::Git)
        } else if str_eq(s, "node_modules") {
            proof {
                assert(marker_names()[1] == "node_modules"@);
            }
            Ok(ProjectTypes::NodeModules)
        } else if str_eq(s, "target") {
            proof {
                assert(marker_names()[2] == "target"@);
            }
            Ok(ProjectTypes::Target)
        } else if str_eq(s, "_build") {
            proof {
                assert(marker_names()[3] == "_build"@);
            }
            Ok(ProjectTypes::_Build)
        } else if str_eq(s, "build") {
            proof {
                assert(marker_names()[4] == "build"@);
            }
            Ok(ProjectTypes::Build)
        } else if str_eq(s, "dist") {
            proof {
                assert(marker_names()[5] == "dist"@);
            }
            Ok(ProjectTypes::Dist)
        } else if str_eq(s, "vendor") {
            proof {
                assert(marker_names()[6] == "vendor"@);
            }
            Ok(ProjectTypes::Vendor)
        } else if str_eq(s, "out") {
            proof {
                assert(marker_names()[7] == "out"@);
            }
            Ok(ProjectTypes::Out)
        } else if str_eq(s, "zig-out") {
            proof {
                assert(marker_names()[8] == "zig-out"@);
            }
            Ok(ProjectTypes::ZigOut)
        } else {
            proof {
                assert(!is_marker_name(s@)) by {
                    if marker_names().contains(s@) {
                        let idx = choose|idx: int|
                            0 <= idx < marker_names().len() && marker_names()[idx] == s@;
                        assert(false);
                    }
                }
            }
            Err(())
        }
    }

    /// The display name of this marker kind.
    pub fn to_string(&self) -> (r: String)
        ensures
            r@ == marker_name(*self),
    {
        match self {
            ProjectTypes::Git => String::from_str(".git"),
            ProjectTypes::NodeModules => String::from_str("node_modules"),
            ProjectTypes::Target => String::from_str("target"),
            ProjectTypes::_Build => String::from_str("_build"),
            ProjectTypes::Build => String::from_str("build"),
            ProjectTypes::Dist => String::from_str("dist"),
            ProjectTypes::Vendor => String::from_str("vendor"),
            ProjectTypes::Out => String::from_str("out"),
            ProjectTypes::ZigOut => String::from_str("zig-out"),
        }
    }
}

} // verus!
