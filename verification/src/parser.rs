//! File inventory and structural-parse boundary: per-file metadata records
//! and the language-agnostic syntax-tree representation.

use vstd::prelude::*;

verus! {

/// Metadata of one discovered source file, as handed to the graph builder.
pub struct FileMetadata {
    /// Path of the file under the scanned root.
    pub path: String,
    /// Language the file was classified as.
    pub language: String,
    /// Size of the file in bytes.
    pub size_bytes: u64,
    /// Number of lines of code.
    pub loc: usize,
    /// Branch-count complexity from the structural parse, when available.
    /// When absent, the builder falls back to a line-count heuristic.
    pub complexity_hint: Option<usize>,
    /// Module identifiers this file declares a dependency on.
    pub referenced_modules: Vec<String>,
}

impl FileMetadata {
    /// The referenced module identifiers as character sequences.
    pub open spec fn spec_refs(self) -> Seq<Seq<char>> {
        self.referenced_modules@.map_values(|s: String| s@)
    }
}

/// A node of the language-agnostic structural parse tree.
pub struct ASTNode {
    pub node_type: String,
    pub children: Vec<ASTNode>,
    pub metadata: Vec<(String, String)>,
}

/// Front end of the pipeline: classifies files and produces structural
/// parse trees. Directory walking itself is a caller's concern; this type
/// holds the pure classification and parsing rules.
pub struct CodeParser {
    supported_languages: Vec<String>,
}

impl CodeParser {
    /// The supported language names as character sequences.
    pub closed spec fn spec_languages(self) -> Seq<Seq<char>> {
        self.supported_languages@.map_values(|s: String| s@)
    }

    /// Creates a parser that recognizes the built-in language set.
    pub fn new() -> (r: CodeParser)
        ensures
            r.spec_languages() =~= seq![
                "python"@,
                "javascript"@,
                "typescript"@,
                "rust"@,
                "go"@,
            ],
    {
        let mut langs: Vec<String> = Vec::new();
        langs.push(String::from_str("python"));
        langs.push(String::from_str("javascript"));
        langs.push(String::from_str("typescript"));
        langs.push(String::from_str("rust"));
        langs.push(String::from_str("go"));
        let r = CodeParser { supported_languages: langs };
        proof {
            assert(r.spec_languages() =~= seq![
                "python"@,
                "javascript"@,
                "typescript"@,
                "rust"@,
                "go"@,
            ]);
        }
        r
    }

    /// Says whether a language name is in the supported set.
    pub fn is_supported_language(&self, lang: &str) -> (r: bool)
        ensures
            r == exists|i: int|
                0 <= i < self.spec_languages().len() && self.spec_languages()[i] == lang@,
    {
        let n: usize = self.supported_languages.len();
        let mut i: usize = 0;
        while i < n
            invariant
                i <= n,
                n == self.supported_languages@.len(),
                forall|k: int| 0 <= k < i ==> self.spec_languages()[k] != lang@,
            decreases n - i,
        {
            if crate::text::str_eq(self.supported_languages[i].as_str(), lang) {
                proof {
                    assert(self.spec_languages()[i as int] == lang@);
                }
                return true;
            }
            i = i + 1;
        }
        false
    }

    /// The language a file-name extension is classified as, if the
    /// extension belongs to a supported language.
    pub fn classify_extension(&self, ext: &str) -> (r: Option<String>)
        ensures
            match r {
                Some(lang) => (ext@ == "py"@ && lang@ == "python"@) || (ext@ == "js"@ && lang@
                    == "javascript"@) || (ext@ == "ts"@ && lang@ == "typescript"@) || (ext@
                    == "rs"@ && lang@ == "rust"@) || (ext@ == "go"@ && lang@ == "go"@),
                None => ext@ != "py"@ && ext@ != "js"@ && ext@ != "ts"@ && ext@ != "rs"@ && ext@
                    != "go"@,
            },
    {
        if crate::text::str_eq(ext, "py") {
            Some(String::from_str("python"))
        } else if crate::text::str_eq(ext, "js") {
            Some(String::from_str("javascript"))
        } else if crate::text::str_eq(ext, "ts") {
            Some(String::from_str("typescript"))
        } else if crate::text::str_eq(ext, "rs") {
            Some(String::from_str("rust"))
        } else if crate::text::str_eq(ext, "go") {
            Some(String::from_str("go"))
        } else {
            None
        }
    }

    /// Produces the structural parse of one file's content. The per-language
    /// grammar work is out of the analysis core's scope: the tree produced
    /// here is the fixed root node that stands for a whole compilation unit.
    pub fn parse_ast(&self, content: &str, lang: &str) -> (r: ASTNode)
        ensures
            r.node_type@ == "program"@,
            r.children@.len() == 0,
            r.metadata@.len() == 0,
    {
        ASTNode {
            node_type: String::from_str("program"),
            children: Vec::new(),
            metadata: Vec::new(),
        }
    }
}

} // verus!
