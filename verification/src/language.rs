//! Source languages recognized by their file extension.

use vstd::prelude::*;

use crate::text::str_eq;

verus! {

/// A source language the project walker recognizes.
#[derive(Clone, Copy, Debug, PartialEq, Eq, Structural)]
pub enum Language {
    TypeScript,
    TSX,
    Python,
    Rust,
    Go,
    CPP,
    JavaScript,
    JSON,
    TOML,
    Markdown,
}

/// The language a file extension stands for, if any.
pub open spec fn language_of_extension(e: Seq<char>) -> Option<Language> {
    if e == "ts"@ {
        Some(Language::TypeScript)
    } else if e == "tsx"@ {
        Some(Language::TSX)
    } else if e == "py"@ {
        Some(Language::Python)
    } else if e == "rs"@ {
        Some(Language::Rust)
    } else if e == "go"@ {
        Some(Language::Go)
    } else if e == "cpp"@ {
        Some(Language::CPP)
    } else if e == "js"@ {
        Some(Language::JavaScript)
    } else if e == "json"@ {
        Some(Language::JSON)
    } else if e == "toml"@ {
        Some(Language::TOML)
    } else if e == "md"@ {
        Some(Language::Markdown)
    } else {
        None
    }
}

impl Language {
    /// The language for a supported file extension.
    pub fn from_extension(extension: &str) -> (r: Self)
        requires
            language_of_extension(extension@) is Some,
        ensures
            Some(r) == language_of_extension(extension@),
    {
        proof {
            reveal_strlit("ts");
            reveal_strlit("tsx");
            reveal_strlit("py");
            reveal_strlit("rs");
            reveal_strlit("go");
            reveal_strlit("cpp");
            reveal_strlit("js");
            reveal_strlit("json");
            reveal_strlit("toml");
            reveal_strlit("md");
        }
        if str_eq(extension, "ts") {
            Language::TypeScript
        } else if str_eq(extension, "tsx") {
            Language::TSX
        } else if str_eq(extension, "py") {
            Language::Python
        } else if str_eq(extension, "rs") {
            Language::Rust
        } else if str_eq(extension, "go") {
            Language::Go
        } else if str_eq(extension, "cpp") {
            Language::CPP
        } else if str_eq(extension, "js") {
            Language::JavaScript
        } else if str_eq(extension, "json") {
            Language::JSON
        } else if str_eq(extension, "toml") {
            Language::TOML
        } else {
            Language::Markdown
        }
    }
}

} // verus!
