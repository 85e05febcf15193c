//! Built-in [`LanguageProfile`] implementations for the tree-sitter
//! grammars the library links, and file-extension based lookup.
//!
//! One table drives everything: each language has a display name and its
//! extensions; the languages with a linked grammar also have a profile.
//!
//! NOTE on ambiguous extensions:
//!   - `.h` is mapped to C, but could be C++ or Objective-C.  Pass `-l cpp`
//!     to override.
//!   - `.conf` is intentionally omitted: it is used by Nginx, Apache, systemd,
//!     and many others.  Use `-l nginx` explicitly.
//!   - `.m` is intentionally omitted: it is MATLAB in scientific codebases and
//!     Objective-C elsewhere.  Use `-l objc` explicitly.

use vstd::prelude::*;

use crate::language::LanguageProfile;
use crate::text::{chars_of, push_char, same_text};

verus! {

/// A grammar the library can parse with.
#[derive(Debug, Clone, Copy, PartialEq, Eq, Structural)]
pub enum Grammar {
    Bash,
    C,
    Cpp,
    CSharp,
    Css,
    Dockerfile,
    Dtd,
    Go,
    Html,
    Java,
    JavaScript,
    Json,
    Kotlin,
    Lua,
    Make,
    Markdown,
    Php,
    Python,
    Ruby,
    Rust,
    Scala,
    Toml,
    TypeScript,
    Tsx,
    Xml,
    Yaml,
}

/// The Bash grammar (`tree_sitter_bash::LANGUAGE`).
#[verifier::external_body]
fn bash_language() -> tree_sitter::Language {
    tree_sitter_bash::LANGUAGE.into()
}

/// The C grammar (`tree_sitter_c::LANGUAGE`).
#[verifier::external_body]
fn c_language() -> tree_sitter::Language {
    tree_sitter_c::LANGUAGE.into()
}

/// The Cpp grammar (`tree_sitter_cpp::LANGUAGE`).
#[verifier::external_body]
fn cpp_language() -> tree_sitter::Language {
    tree_sitter_cpp::LANGUAGE.into()
}

/// The CSharp grammar (`tree_sitter_c_sharp::LANGUAGE`).
#[verifier::external_body]
fn c_sharp_language() -> tree_sitter::Language {
    tree_sitter_c_sharp::LANGUAGE.into()
}

/// The Css grammar (`tree_sitter_css::LANGUAGE`).
#[verifier::external_body]
fn css_language() -> tree_sitter::Language {
    tree_sitter_css::LANGUAGE.into()
}

/// The Dockerfile grammar (`tree_sitter_containerfile::LANGUAGE`).
#[verifier::external_body]
fn dockerfile_language() -> tree_sitter::Language {
    tree_sitter_containerfile::LANGUAGE.into()
}

/// The Dtd grammar (`tree_sitter_xml::LANGUAGE_DTD`).
#[verifier::external_body]
fn dtd_language() -> tree_sitter::Language {
    tree_sitter_xml::LANGUAGE_DTD.into()
}

/// The Go grammar (`tree_sitter_go::LANGUAGE`).
#[verifier::external_body]
fn go_language() -> tree_sitter::Language {
    tree_sitter_go::LANGUAGE.into()
}

/// The Html grammar (`tree_sitter_html::LANGUAGE`).
#[verifier::external_body]
fn html_language() -> tree_sitter::Language {
    tree_sitter_html::LANGUAGE.into()
}

/// The Java grammar (`tree_sitter_java::LANGUAGE`).
#[verifier::external_body]
fn java_language() -> tree_sitter::Language {
    tree_sitter_java::LANGUAGE.into()
}

/// The JavaScript grammar (`tree_sitter_javascript::LANGUAGE`).
#[verifier::external_body]
fn java_script_language() -> tree_sitter::Language {
    tree_sitter_javascript::LANGUAGE.into()
}

/// The Json grammar (`tree_sitter_json::LANGUAGE`).
#[verifier::external_body]
fn json_language() -> tree_sitter::Language {
    tree_sitter_json::LANGUAGE.into()
}

/// The Kotlin grammar (`tree_sitter_kotlin_ng::LANGUAGE`).
#[verifier::external_body]
fn kotlin_language() -> tree_sitter::Language {
    tree_sitter_kotlin_ng::LANGUAGE.into()
}

/// The Lua grammar (`tree_sitter_lua::LANGUAGE`).
#[verifier::external_body]
fn lua_language() -> tree_sitter::Language {
    tree_sitter_lua::LANGUAGE.into()
}

/// The Make grammar (`tree_sitter_make::LANGUAGE`).
#[verifier::external_body]
fn make_language() -> tree_sitter::Language {
    tree_sitter_make::LANGUAGE.into()
}

/// The Markdown grammar (`tree_sitter_md::LANGUAGE`).
#[verifier::external_body]
fn markdown_language() -> tree_sitter::Language {
    tree_sitter_md::LANGUAGE.into()
}

/// The Php grammar (`tree_sitter_php::LANGUAGE_PHP`).
#[verifier::external_body]
fn php_language() -> tree_sitter::Language {
    tree_sitter_php::LANGUAGE_PHP.into()
}

/// The Python grammar (`tree_sitter_python::LANGUAGE`).
#[verifier::external_body]
fn python_language() -> tree_sitter::Language {
    tree_sitter_python::LANGUAGE.into()
}

/// The Ruby grammar (`tree_sitter_ruby::LANGUAGE`).
#[verifier::external_body]
fn ruby_language() -> tree_sitter::Language {
    tree_sitter_ruby::LANGUAGE.into()
}

/// The Rust grammar (`tree_sitter_rust::LANGUAGE`).
#[verifier::external_body]
fn rust_language() -> tree_sitter::Language {
    tree_sitter_rust::LANGUAGE.into()
}

/// The Scala grammar (`tree_sitter_scala::LANGUAGE`).
#[verifier::external_body]
fn scala_language() -> tree_sitter::Language {
    tree_sitter_scala::LANGUAGE.into()
}

/// The Toml grammar (`tree_sitter_toml_ng::LANGUAGE`).
#[verifier::external_body]
fn toml_language() -> tree_sitter::Language {
    tree_sitter_toml_ng::LANGUAGE.into()
}

/// The TypeScript grammar (`tree_sitter_typescript::LANGUAGE_TYPESCRIPT`).
#[verifier::external_body]
fn type_script_language() -> tree_sitter::Language {
    tree_sitter_typescript::LANGUAGE_TYPESCRIPT.into()
}

/// The Tsx grammar (`tree_sitter_typescript::LANGUAGE_TSX`).
#[verifier::external_body]
fn tsx_language() -> tree_sitter::Language {
    tree_sitter_typescript::LANGUAGE_TSX.into()
}

/// The Xml grammar (`tree_sitter_xml::LANGUAGE_XML`).
#[verifier::external_body]
fn xml_language() -> tree_sitter::Language {
    tree_sitter_xml::LANGUAGE_XML.into()
}

/// The Yaml grammar (`tree_sitter_yaml::LANGUAGE`).
#[verifier::external_body]
fn yaml_language() -> tree_sitter::Language {
    tree_sitter_yaml::LANGUAGE.into()
}

impl LanguageProfile for Grammar {
    fn language(&self) -> tree_sitter::Language {
        match self {
            Grammar::Bash => bash_language(),
            Grammar::C => c_language(),
            Grammar::Cpp => cpp_language(),
            Grammar::CSharp => c_sharp_language(),
            Grammar::Css => css_language(),
            Grammar::Dockerfile => dockerfile_language(),
            Grammar::Dtd => dtd_language(),
            Grammar::Go => go_language(),
            Grammar::Html => html_language(),
            Grammar::Java => java_language(),
            Grammar::JavaScript => java_script_language(),
            Grammar::Json => json_language(),
            Grammar::Kotlin => kotlin_language(),
            Grammar::Lua => lua_language(),
            Grammar::Make => make_language(),
            Grammar::Markdown => markdown_language(),
            Grammar::Php => php_language(),
            Grammar::Python => python_language(),
            Grammar::Ruby => ruby_language(),
            Grammar::Rust => rust_language(),
            Grammar::Scala => scala_language(),
            Grammar::Toml => toml_language(),
            Grammar::TypeScript => type_script_language(),
            Grammar::Tsx => tsx_language(),
            Grammar::Xml => xml_language(),
            Grammar::Yaml => yaml_language(),
        }
    }
}

/// The grammar linked for a file extension (without the leading dot).
pub open spec fn grammar_of_ext(ext: Seq<char>) -> Option<Grammar> {
    if ext == "sh"@ || ext == "bash"@ || ext == "zsh"@ {
        Some(Grammar::Bash)
    } else if ext == "c"@ || ext == "h"@ {
        Some(Grammar::C)
    } else if ext == "cc"@ || ext == "cpp"@ || ext == "cxx"@ || ext == "hpp"@ || ext == "hxx"@ || ext == "hh"@ {
        Some(Grammar::Cpp)
    } else if ext == "cs"@ {
        Some(Grammar::CSharp)
    } else if ext == "css"@ {
        Some(Grammar::Css)
    } else if ext == "dockerfile"@ {
        Some(Grammar::Dockerfile)
    } else if ext == "dtd"@ {
        Some(Grammar::Dtd)
    } else if ext == "go"@ {
        Some(Grammar::Go)
    } else if ext == "html"@ || ext == "htm"@ {
        Some(Grammar::Html)
    } else if ext == "java"@ {
        Some(Grammar::Java)
    } else if ext == "js"@ || ext == "mjs"@ || ext == "cjs"@ || ext == "jsx"@ {
        Some(Grammar::JavaScript)
    } else if ext == "json"@ {
        Some(Grammar::Json)
    } else if ext == "kt"@ || ext == "kts"@ {
        Some(Grammar::Kotlin)
    } else if ext == "lua"@ {
        Some(Grammar::Lua)
    } else if ext == "mk"@ {
        Some(Grammar::Make)
    } else if ext == "md"@ || ext == "markdown"@ {
        Some(Grammar::Markdown)
    } else if ext == "php"@ {
        Some(Grammar::Php)
    } else if ext == "py"@ || ext == "pyi"@ {
        Some(Grammar::Python)
    } else if ext == "rb"@ {
        Some(Grammar::Ruby)
    } else if ext == "rs"@ {
        Some(Grammar::Rust)
    } else if ext == "scala"@ || ext == "sc"@ {
        Some(Grammar::Scala)
    } else if ext == "toml"@ {
        Some(Grammar::Toml)
    } else if ext == "ts"@ || ext == "mts"@ || ext == "cts"@ {
        Some(Grammar::TypeScript)
    } else if ext == "tsx"@ {
        Some(Grammar::Tsx)
    } else if ext == "xml"@ || ext == "xsl"@ || ext == "xslt"@ || ext == "xsd"@ || ext == "svg"@ || ext == "plist"@ {
        Some(Grammar::Xml)
    } else if ext == "yaml"@ || ext == "yml"@ {
        Some(Grammar::Yaml)
    } else {
        None
    }
}

/// Returns the profile for a file extension (without the leading dot), or
/// `None` if the extension is not recognised or its grammar is not linked.
pub fn profile_for_ext(ext: &str) -> (r: Option<Grammar>)
    ensures
        r == grammar_of_ext(ext@),
{
    proof {
        reveal_strlit("P");
        reveal_strlit("R");
        reveal_strlit("agda");
        reveal_strlit("asd");
        reveal_strlit("bash");
        reveal_strlit("c");
        reveal_strlit("cc");
        reveal_strlit("cjs");
        reveal_strlit("cl");
        reveal_strlit("cls");
        reveal_strlit("cmake");
        reveal_strlit("comp");
        reveal_strlit("cpp");
        reveal_strlit("cs");
        reveal_strlit("css");
        reveal_strlit("cts");
        reveal_strlit("cxx");
        reveal_strlit("dart");
        reveal_strlit("dockerfile");
        reveal_strlit("dpr");
        reveal_strlit("dtd");
        reveal_strlit("ejs");
        reveal_strlit("elm");
        reveal_strlit("erb");
        reveal_strlit("erl");
        reveal_strlit("ex");
        reveal_strlit("exs");
        reveal_strlit("f");
        reveal_strlit("f03");
        reveal_strlit("f08");
        reveal_strlit("f90");
        reveal_strlit("f95");
        reveal_strlit("for");
        reveal_strlit("fpp");
        reveal_strlit("frag");
        reveal_strlit("gd");
        reveal_strlit("geom");
        reveal_strlit("glsl");
        reveal_strlit("go");
        reveal_strlit("gql");
        reveal_strlit("gradle");
        reveal_strlit("graphql");
        reveal_strlit("groovy");
        reveal_strlit("h");
        reveal_strlit("hcl");
        reveal_strlit("hh");
        reveal_strlit("hpp");
        reveal_strlit("hrl");
        reveal_strlit("hs");
        reveal_strlit("htm");
        reveal_strlit("html");
        reveal_strlit("hxx");
        reveal_strlit("java");
        reveal_strlit("jl");
        reveal_strlit("js");
        reveal_strlit("jsdoc");
        reveal_strlit("json");
        reveal_strlit("jsx");
        reveal_strlit("kt");
        reveal_strlit("kts");
        reveal_strlit("latex");
        reveal_strlit("lhs");
        reveal_strlit("lisp");
        reveal_strlit("lpr");
        reveal_strlit("lsp");
        reveal_strlit("lua");
        reveal_strlit("markdown");
        reveal_strlit("md");
        reveal_strlit("mjs");
        reveal_strlit("mk");
        reveal_strlit("ml");
        reveal_strlit("mli");
        reveal_strlit("mts");
        reveal_strlit("nginx");
        reveal_strlit("nix");
        reveal_strlit("objc");
        reveal_strlit("pas");
        reveal_strlit("php");
        reveal_strlit("pl");
        reveal_strlit("plist");
        reveal_strlit("pm");
        reveal_strlit("pp");
        reveal_strlit("pro");
        reveal_strlit("prolog");
        reveal_strlit("proto");
        reveal_strlit("ps1");
        reveal_strlit("psd1");
        reveal_strlit("psm1");
        reveal_strlit("py");
        reveal_strlit("pyi");
        reveal_strlit("r");
        reveal_strlit("rb");
        reveal_strlit("regex");
        reveal_strlit("rkt");
        reveal_strlit("rs");
        reveal_strlit("sc");
        reveal_strlit("scala");
        reveal_strlit("scm");
        reveal_strlit("sh");
        reveal_strlit("sol");
        reveal_strlit("sql");
        reveal_strlit("ss");
        reveal_strlit("sty");
        reveal_strlit("sv");
        reveal_strlit("svg");
        reveal_strlit("svh");
        reveal_strlit("swift");
        reveal_strlit("tex");
        reveal_strlit("tf");
        reveal_strlit("tfvars");
        reveal_strlit("toml");
        reveal_strlit("ts");
        reveal_strlit("tsx");
        reveal_strlit("v");
        reveal_strlit("vert");
        reveal_strlit("xml");
        reveal_strlit("xsd");
        reveal_strlit("xsl");
        reveal_strlit("xslt");
        reveal_strlit("yaml");
        reveal_strlit("yml");
        reveal_strlit("zig");
        reveal_strlit("zsh");
    }
    if same_text(ext, "sh") || same_text(ext, "bash") || same_text(ext, "zsh") {
        Some(Grammar::Bash)
    } else if same_text(ext, "c") || same_text(ext, "h") {
        Some(Grammar::C)
    } else if same_text(ext, "cc") || same_text(ext, "cpp") || same_text(ext, "cxx") || same_text(ext, "hpp") || same_text(ext, "hxx") || same_text(ext, "hh") {
        Some(Grammar::Cpp)
    } else if same_text(ext, "cs") {
        Some(Grammar::CSharp)
    } else if same_text(ext, "css") {
        Some(Grammar::Css)
    } else if same_text(ext, "dockerfile") {
        Some(Grammar::Dockerfile)
    } else if same_text(ext, "dtd") {
        Some(Grammar::Dtd)
    } else if same_text(ext, "go") {
        Some(Grammar::Go)
    } else if same_text(ext, "html") || same_text(ext, "htm") {
        Some(Grammar::Html)
    } else if same_text(ext, "java") {
        Some(Grammar::Java)
    } else if same_text(ext, "js") || same_text(ext, "mjs") || same_text(ext, "cjs") || same_text(ext, "jsx") {
        Some(Grammar::JavaScript)
    } else if same_text(ext, "json") {
        Some(Grammar::Json)
    } else if same_text(ext, "kt") || same_text(ext, "kts") {
        Some(Grammar::Kotlin)
    } else if same_text(ext, "lua") {
        Some(Grammar::Lua)
    } else if same_text(ext, "mk") {
        Some(Grammar::Make)
    } else if same_text(ext, "md") || same_text(ext, "markdown") {
        Some(Grammar::Markdown)
    } else if same_text(ext, "php") {
        Some(Grammar::Php)
    } else if same_text(ext, "py") || same_text(ext, "pyi") {
        Some(Grammar::Python)
    } else if same_text(ext, "rb") {
        Some(Grammar::Ruby)
    } else if same_text(ext, "rs") {
        Some(Grammar::Rust)
    } else if same_text(ext, "scala") || same_text(ext, "sc") {
        Some(Grammar::Scala)
    } else if same_text(ext, "toml") {
        Some(Grammar::Toml)
    } else if same_text(ext, "ts") || same_text(ext, "mts") || same_text(ext, "cts") {
        Some(Grammar::TypeScript)
    } else if same_text(ext, "tsx") {
        Some(Grammar::Tsx)
    } else if same_text(ext, "xml") || same_text(ext, "xsl") || same_text(ext, "xslt") || same_text(ext, "xsd") || same_text(ext, "svg") || same_text(ext, "plist") {
        Some(Grammar::Xml)
    } else if same_text(ext, "yaml") || same_text(ext, "yml") {
        Some(Grammar::Yaml)
    } else {
        None
    }
}

/// The human-readable language name for a file extension.
pub open spec fn language_name_of_ext(ext: Seq<char>) -> Option<Seq<char>> {
    if ext == "agda"@ {
        Some("Agda"@)
    } else if ext == "sh"@ || ext == "bash"@ || ext == "zsh"@ {
        Some("Bash"@)
    } else if ext == "c"@ || ext == "h"@ {
        Some("C"@)
    } else if ext == "cmake"@ {
        Some("CMake"@)
    } else if ext == "cl"@ || ext == "lisp"@ || ext == "lsp"@ || ext == "asd"@ {
        Some("Common Lisp"@)
    } else if ext == "cc"@ || ext == "cpp"@ || ext == "cxx"@ || ext == "hpp"@ || ext == "hxx"@ || ext == "hh"@ {
        Some("C++"@)
    } else if ext == "cs"@ {
        Some("C#"@)
    } else if ext == "css"@ {
        Some("CSS"@)
    } else if ext == "dart"@ {
        Some("Dart"@)
    } else if ext == "dockerfile"@ {
        Some("Dockerfile"@)
    } else if ext == "dtd"@ {
        Some("DTD"@)
    } else if ext == "ex"@ || ext == "exs"@ {
        Some("Elixir"@)
    } else if ext == "elm"@ {
        Some("Elm"@)
    } else if ext == "erb"@ || ext == "ejs"@ {
        Some("ERB"@)
    } else if ext == "erl"@ || ext == "hrl"@ {
        Some("Erlang"@)
    } else if ext == "f"@ || ext == "f90"@ || ext == "f95"@ || ext == "f03"@ || ext == "f08"@ || ext == "for"@ || ext == "fpp"@ {
        Some("Fortran"@)
    } else if ext == "gd"@ {
        Some("GDScript"@)
    } else if ext == "glsl"@ || ext == "vert"@ || ext == "frag"@ || ext == "geom"@ || ext == "comp"@ {
        Some("GLSL"@)
    } else if ext == "go"@ {
        Some("Go"@)
    } else if ext == "graphql"@ || ext == "gql"@ {
        Some("GraphQL"@)
    } else if ext == "groovy"@ || ext == "gradle"@ {
        Some("Groovy"@)
    } else if ext == "hs"@ || ext == "lhs"@ {
        Some("Haskell"@)
    } else if ext == "hcl"@ || ext == "tf"@ || ext == "tfvars"@ {
        Some("HCL"@)
    } else if ext == "html"@ || ext == "htm"@ {
        Some("HTML"@)
    } else if ext == "java"@ {
        Some("Java"@)
    } else if ext == "js"@ || ext == "mjs"@ || ext == "cjs"@ || ext == "jsx"@ {
        Some("JavaScript"@)
    } else if ext == "jsdoc"@ {
        Some("JSDoc"@)
    } else if ext == "json"@ {
        Some("JSON"@)
    } else if ext == "jl"@ {
        Some("Julia"@)
    } else if ext == "kt"@ || ext == "kts"@ {
        Some("Kotlin"@)
    } else if ext == "tex"@ || ext == "latex"@ || ext == "sty"@ || ext == "cls"@ {
        Some("LaTeX"@)
    } else if ext == "lua"@ {
        Some("Lua"@)
    } else if ext == "mk"@ {
        Some("Make"@)
    } else if ext == "md"@ || ext == "markdown"@ {
        Some("Markdown"@)
    } else if ext == "nginx"@ {
        Some("Nginx"@)
    } else if ext == "nix"@ {
        Some("Nix"@)
    } else if ext == "objc"@ {
        Some("Objective-C"@)
    } else if ext == "ml"@ {
        Some("OCaml"@)
    } else if ext == "mli"@ {
        Some("OCaml Interface"@)
    } else if ext == "pas"@ || ext == "pp"@ || ext == "lpr"@ || ext == "dpr"@ {
        Some("Pascal"@)
    } else if ext == "pl"@ || ext == "pm"@ {
        Some("Perl"@)
    } else if ext == "php"@ {
        Some("PHP"@)
    } else if ext == "ps1"@ || ext == "psm1"@ || ext == "psd1"@ {
        Some("PowerShell"@)
    } else if ext == "pro"@ || ext == "P"@ || ext == "prolog"@ {
        Some("Prolog"@)
    } else if ext == "proto"@ {
        Some("Protocol Buffers"@)
    } else if ext == "py"@ || ext == "pyi"@ {
        Some("Python"@)
    } else if ext == "r"@ || ext == "R"@ {
        Some("R"@)
    } else if ext == "rkt"@ {
        Some("Racket"@)
    } else if ext == "regex"@ {
        Some("Regex"@)
    } else if ext == "rb"@ {
        Some("Ruby"@)
    } else if ext == "rs"@ {
        Some("Rust"@)
    } else if ext == "scala"@ || ext == "sc"@ {
        Some("Scala"@)
    } else if ext == "scm"@ || ext == "ss"@ {
        Some("Scheme"@)
    } else if ext == "sol"@ {
        Some("Solidity"@)
    } else if ext == "sql"@ {
        Some("SQL"@)
    } else if ext == "swift"@ {
        Some("Swift"@)
    } else if ext == "toml"@ {
        Some("TOML"@)
    } else if ext == "ts"@ || ext == "mts"@ || ext == "cts"@ {
        Some("TypeScript"@)
    } else if ext == "tsx"@ {
        Some("TSX"@)
    } else if ext == "v"@ || ext == "sv"@ || ext == "svh"@ {
        Some("Verilog"@)
    } else if ext == "xml"@ || ext == "xsl"@ || ext == "xslt"@ || ext == "xsd"@ || ext == "svg"@ || ext == "plist"@ {
        Some("XML"@)
    } else if ext == "yaml"@ || ext == "yml"@ {
        Some("YAML"@)
    } else if ext == "zig"@ {
        Some("Zig"@)
    } else {
        None
    }
}

/// Return a human-readable language name for a file extension, or
/// `None` if the extension is not recognised.
pub fn language_name_for_ext(ext: &str) -> (r: Option<&'static str>)
    ensures
        match r {
            Some(name) => language_name_of_ext(ext@) == Some(name@),
            None => language_name_of_ext(ext@) is None,
        },
{
    if same_text(ext, "agda") {
        Some("Agda")
    } else if same_text(ext, "sh") || same_text(ext, "bash") || same_text(ext, "zsh") {
        Some("Bash")
    } else if same_text(ext, "c") || same_text(ext, "h") {
        Some("C")
    } else if same_text(ext, "cmake") {
        Some("CMake")
    } else if same_text(ext, "cl") || same_text(ext, "lisp") || same_text(ext, "lsp") || same_text(ext, "asd") {
        Some("Common Lisp")
    } else if same_text(ext, "cc") || same_text(ext, "cpp") || same_text(ext, "cxx") || same_text(ext, "hpp") || same_text(ext, "hxx") || same_text(ext, "hh") {
        Some("C++")
    } else if same_text(ext, "cs") {
        Some("C#")
    } else if same_text(ext, "css") {
        Some("CSS")
    } else if same_text(ext, "dart") {
        Some("Dart")
    } else if same_text(ext, "dockerfile") {
        Some("Dockerfile")
    } else if same_text(ext, "dtd") {
        Some("DTD")
    } else if same_text(ext, "ex") || same_text(ext, "exs") {
        Some("Elixir")
    } else if same_text(ext, "elm") {
        Some("Elm")
    } else if same_text(ext, "erb") || same_text(ext, "ejs") {
        Some("ERB")
    } else if same_text(ext, "erl") || same_text(ext, "hrl") {
        Some("Erlang")
    } else if same_text(ext, "f") || same_text(ext, "f90") || same_text(ext, "f95") || same_text(ext, "f03") || same_text(ext, "f08") || same_text(ext, "for") || same_text(ext, "fpp") {
        Some("Fortran")
    } else if same_text(ext, "gd") {
        Some("GDScript")
    } else if same_text(ext, "glsl") || same_text(ext, "vert") || same_text(ext, "frag") || same_text(ext, "geom") || same_text(ext, "comp") {
        Some("GLSL")
    } else if same_text(ext, "go") {
        Some("Go")
    } else if same_text(ext, "graphql") || same_text(ext, "gql") {
        Some("GraphQL")
    } else if same_text(ext, "groovy") || same_text(ext, "gradle") {
        Some("Groovy")
    } else if same_text(ext, "hs") || same_text(ext, "lhs") {
        Some("Haskell")
    } else if same_text(ext, "hcl") || same_text(ext, "tf") || same_text(ext, "tfvars") {
        Some("HCL")
    } else if same_text(ext, "html") || same_text(ext, "htm") {
        Some("HTML")
    } else if same_text(ext, "java") {
        Some("Java")
    } else if same_text(ext, "js") || same_text(ext, "mjs") || same_text(ext, "cjs") || same_text(ext, "jsx") {
        Some("JavaScript")
    } else if same_text(ext, "jsdoc") {
        Some("JSDoc")
    } else if same_text(ext, "json") {
        Some("JSON")
    } else if same_text(ext, "jl") {
        Some("Julia")
    } else if same_text(ext, "kt") || same_text(ext, "kts") {
        Some("Kotlin")
    } else if same_text(ext, "tex") || same_text(ext, "latex") || same_text(ext, "sty") || same_text(ext, "cls") {
        Some("LaTeX")
    } else if same_text(ext, "lua") {
        Some("Lua")
    } else if same_text(ext, "mk") {
        Some("Make")
    } else if same_text(ext, "md") || same_text(ext, "markdown") {
        Some("Markdown")
    } else if same_text(ext, "nginx") {
        Some("Nginx")
    } else if same_text(ext, "nix") {
        Some("Nix")
    } else if same_text(ext, "objc") {
        Some("Objective-C")
    } else if same_text(ext, "ml") {
        Some("OCaml")
    } else if same_text(ext, "mli") {
        Some("OCaml Interface")
    } else if same_text(ext, "pas") || same_text(ext, "pp") || same_text(ext, "lpr") || same_text(ext, "dpr") {
        Some("Pascal")
    } else if same_text(ext, "pl") || same_text(ext, "pm") {
        Some("Perl")
    } else if same_text(ext, "php") {
        Some("PHP")
    } else if same_text(ext, "ps1") || same_text(ext, "psm1") || same_text(ext, "psd1") {
        Some("PowerShell")
    } else if same_text(ext, "pro") || same_text(ext, "P") || same_text(ext, "prolog") {
        Some("Prolog")
    } else if same_text(ext, "proto") {
        Some("Protocol Buffers")
    } else if same_text(ext, "py") || same_text(ext, "pyi") {
        Some("Python")
    } else if same_text(ext, "r") || same_text(ext, "R") {
        Some("R")
    } else if same_text(ext, "rkt") {
        Some("Racket")
    } else if same_text(ext, "regex") {
        Some("Regex")
    } else if same_text(ext, "rb") {
        Some("Ruby")
    } else if same_text(ext, "rs") {
        Some("Rust")
    } else if same_text(ext, "scala") || same_text(ext, "sc") {
        Some("Scala")
    } else if same_text(ext, "scm") || same_text(ext, "ss") {
        Some("Scheme")
    } else if same_text(ext, "sol") {
        Some("Solidity")
    } else if same_text(ext, "sql") {
        Some("SQL")
    } else if same_text(ext, "swift") {
        Some("Swift")
    } else if same_text(ext, "toml") {
        Some("TOML")
    } else if same_text(ext, "ts") || same_text(ext, "mts") || same_text(ext, "cts") {
        Some("TypeScript")
    } else if same_text(ext, "tsx") {
        Some("TSX")
    } else if same_text(ext, "v") || same_text(ext, "sv") || same_text(ext, "svh") {
        Some("Verilog")
    } else if same_text(ext, "xml") || same_text(ext, "xsl") || same_text(ext, "xslt") || same_text(ext, "xsd") || same_text(ext, "svg") || same_text(ext, "plist") {
        Some("XML")
    } else if same_text(ext, "yaml") || same_text(ext, "yml") {
        Some("YAML")
    } else if same_text(ext, "zig") {
        Some("Zig")
    } else {
        None
    }
}

/// The extensions with a linked grammar, in table order.
pub open spec fn supported_extension_list() -> Seq<Seq<char>> {
    seq!["sh"@, "bash"@, "zsh"@, "c"@, "h"@, "cc"@, "cpp"@, "cxx"@, "hpp"@, "hxx"@, "hh"@, "cs"@, "css"@, "dockerfile"@, "dtd"@, "go"@, "html"@, "htm"@, "java"@, "js"@, "mjs"@, "cjs"@, "jsx"@, "json"@, "kt"@, "kts"@, "lua"@, "mk"@, "md"@, "markdown"@, "php"@, "py"@, "pyi"@, "rb"@, "rs"@, "scala"@, "sc"@, "toml"@, "ts"@, "mts"@, "cts"@, "tsx"@, "xml"@, "xsl"@, "xslt"@, "xsd"@, "svg"@, "plist"@, "yaml"@, "yml"@]
}

/// List all supported file extensions (those with a linked grammar), in
/// table order.
pub fn supported_extensions() -> (r: Vec<&'static str>)
    ensures
        r@.len() == supported_extension_list().len(),
        forall|k: int| 0 <= k < r@.len() ==> (#[trigger] r@[k])@ == supported_extension_list()[k],
{
    let mut r: Vec<&'static str> = Vec::new();
    r.push("sh");
    r.push("bash");
    r.push("zsh");
    r.push("c");
    r.push("h");
    r.push("cc");
    r.push("cpp");
    r.push("cxx");
    r.push("hpp");
    r.push("hxx");
    r.push("hh");
    r.push("cs");
    r.push("css");
    r.push("dockerfile");
    r.push("dtd");
    r.push("go");
    r.push("html");
    r.push("htm");
    r.push("java");
    r.push("js");
    r.push("mjs");
    r.push("cjs");
    r.push("jsx");
    r.push("json");
    r.push("kt");
    r.push("kts");
    r.push("lua");
    r.push("mk");
    r.push("md");
    r.push("markdown");
    r.push("php");
    r.push("py");
    r.push("pyi");
    r.push("rb");
    r.push("rs");
    r.push("scala");
    r.push("sc");
    r.push("toml");
    r.push("ts");
    r.push("mts");
    r.push("cts");
    r.push("tsx");
    r.push("xml");
    r.push("xsl");
    r.push("xslt");
    r.push("xsd");
    r.push("svg");
    r.push("plist");
    r.push("yaml");
    r.push("yml");
    proof {
        assert(r@.len() == supported_extension_list().len());
        assert forall|k: int| 0 <= k < r@.len() implies (#[trigger] r@[k])@ == supported_extension_list()[k] by {
        }
    }
    r
}

/// Law: every supported extension resolves to a profile.
pub proof fn lemma_supported_extensions_resolve()
    ensures
        forall|k: int|
            0 <= k < supported_extension_list().len() ==> grammar_of_ext(
                #[trigger] supported_extension_list()[k],
            ) is Some,
{
    reveal_strlit("bash");
    reveal_strlit("c");
    reveal_strlit("cc");
    reveal_strlit("cjs");
    reveal_strlit("cpp");
    reveal_strlit("cs");
    reveal_strlit("css");
    reveal_strlit("cts");
    reveal_strlit("cxx");
    reveal_strlit("dockerfile");
    reveal_strlit("dtd");
    reveal_strlit("go");
    reveal_strlit("h");
    reveal_strlit("hh");
    reveal_strlit("hpp");
    reveal_strlit("htm");
    reveal_strlit("html");
    reveal_strlit("hxx");
    reveal_strlit("java");
    reveal_strlit("js");
    reveal_strlit("json");
    reveal_strlit("jsx");
    reveal_strlit("kt");
    reveal_strlit("kts");
    reveal_strlit("lua");
    reveal_strlit("markdown");
    reveal_strlit("md");
    reveal_strlit("mjs");
    reveal_strlit("mk");
    reveal_strlit("mts");
    reveal_strlit("php");
    reveal_strlit("plist");
    reveal_strlit("py");
    reveal_strlit("pyi");
    reveal_strlit("rb");
    reveal_strlit("rs");
    reveal_strlit("sc");
    reveal_strlit("scala");
    reveal_strlit("sh");
    reveal_strlit("svg");
    reveal_strlit("toml");
    reveal_strlit("ts");
    reveal_strlit("tsx");
    reveal_strlit("xml");
    reveal_strlit("xsd");
    reveal_strlit("xsl");
    reveal_strlit("xslt");
    reveal_strlit("yaml");
    reveal_strlit("yml");
    reveal_strlit("zsh");
}

/// `c` in lower case when it is an ASCII capital letter.
pub open spec fn ascii_lower(c: char) -> char {
    if 'A' <= c <= 'Z' {
        ((c as u32) + 32) as char
    } else {
        c
    }
}

/// Lower-cases the ASCII letters of `text` (`str::to_ascii_lowercase`).
pub fn to_ascii_lowercase(text: &str) -> (r: String)
    ensures
        r@ == text@.map_values(|c: char| ascii_lower(c)),
{
    let chars = chars_of(text);
    let mut out = String::new();
    let mut i: usize = 0;
    while i < chars.len()
        invariant
            i <= chars@.len(),
            out@ == chars@.take(i as int).map_values(|c: char| ascii_lower(c)),
        decreases chars@.len() - i,
    {
        let c = chars[i];
        let lower = if 'A' <= c && c <= 'Z' {
            ((c as u32) + 32) as u8 as char
        } else {
            c
        };
        push_char(&mut out, lower);
        assert(chars@.take(i + 1).map_values(|c: char| ascii_lower(c)) =~= chars@.take(i as int).map_values(
            |c: char| ascii_lower(c),
        ).push(ascii_lower(c)));
        i += 1;
    }
    assert(chars@.take(chars@.len() as int) =~= chars@);
    out
}

/// The grammar for a well-known extensionless file name, compared without
/// regard to ASCII case.
pub open spec fn grammar_of_filename(name: Seq<char>) -> Option<Grammar> {
    let lower = name.map_values(|c: char| ascii_lower(c));
    if lower == "dockerfile"@ || lower == "containerfile"@ {
        grammar_of_ext("dockerfile"@)
    } else if lower == "makefile"@ || lower == "gnumakefile"@ {
        grammar_of_ext("mk"@)
    } else {
        None
    }
}

/// Look up a profile by **filename** (e.g. `Dockerfile`, `Makefile`).
/// Returns `None` for filenames that don't have a special mapping.
pub fn profile_for_filename(name: &str) -> (r: Option<Grammar>)
    ensures
        r == grammar_of_filename(name@),
{
    // Case-insensitive match for well-known extensionless filenames.
    let lower = to_ascii_lowercase(name);
    let lower = lower.as_str();
    if same_text(lower, "dockerfile") || same_text(lower, "containerfile") {
        profile_for_ext("dockerfile")
    } else if same_text(lower, "makefile") || same_text(lower, "gnumakefile") {
        profile_for_ext("mk")
    } else {
        None
    }
}

} // verus!
