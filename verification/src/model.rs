//! The build metadata graph and the tool configuration, as plain data.

use vstd::prelude::*;

verus! {

/// A symbol that an object defines or leaves undefined.
#[derive(Debug, Clone)]
pub struct Symbol {
    name: String,
}

impl Symbol {
    /// A symbol with the given name.
    pub fn new(name: String) -> (symbol: Symbol)
        ensures
            symbol.name_text() == name@,
    {
        Symbol { name }
    }

    /// The symbol's name, as a sequence of characters.
    pub closed spec fn name_text(&self) -> Seq<char> {
        self.name@
    }

    /// The symbol's name.
    pub fn name(&self) -> (name: &str)
        ensures
            name@ == self.name_text(),
    {
        self.name.as_str()
    }
}

/// A compiled translation unit: a leaf of the link graph.
#[derive(Debug, Clone)]
pub struct Object {
    pub abs_path: String,
    pub name: String,
    pub defined_symbols: Vec<Symbol>,
    pub undefined_symbols: Vec<Symbol>,
}

/// A link-stage build product.
#[derive(Debug, Clone)]
pub struct Target {
    pub name: String,
    pub abs_path: String,
    /// Each entry is the path of another target or of a leaf object; an
    /// entry that names neither is taken as satisfied from outside.
    pub dependencies: Vec<String>,
    pub target_type: u8,
}

/// A link target together with the script it came from.
#[derive(Debug, Clone)]
pub struct LinkScript {
    pub abs_path: String,
    pub target: Target,
}

/// Everything the metadata extractor reports about a project.
#[derive(Debug, Clone)]
pub struct Collection {
    pub objects: Vec<Object>,
    pub scripts: Vec<LinkScript>,
    pub compile: Vec<String>,
}

/// The external tools the pipeline drives.
#[derive(Debug, Clone)]
pub struct Configuration {
    pub callpass_library_path: String,
    pub debug: bool,
    pub original_cxx_executable: String,
    pub original_cc_executable: String,
    pub targeted_cxx_executable: String,
    pub targeted_cc_executable: String,
    pub llvm_link_executable: String,
    pub cmaker_executable: String,
    pub cmake_executable: String,
    pub remake_executable: String,
}

/// The views of a sequence of strings.
pub open spec fn texts(strings: Seq<String>) -> Seq<Seq<char>> {
    strings.map_values(|s: String| s@)
}

impl Target {
    /// The target's dependency identifiers, in order.
    pub open spec fn dependency_names(&self) -> Seq<Seq<char>> {
        texts(self.dependencies@)
    }
}

impl Collection {
    /// The path of each link target, in the order of `scripts`.
    pub open spec fn target_paths(&self) -> Seq<Seq<char>> {
        self.scripts@.map_values(|s: LinkScript| s.target.abs_path@)
    }

    /// The path of each leaf object, in the order of `objects`.
    pub open spec fn object_paths(&self) -> Seq<Seq<char>> {
        self.objects@.map_values(|o: Object| o.abs_path@)
    }

    /// The dependency identifiers of each link target.
    pub open spec fn dependency_lists(&self) -> Seq<Seq<Seq<char>>> {
        self.scripts@.map_values(|s: LinkScript| s.target.dependency_names())
    }
}

} // verus!
