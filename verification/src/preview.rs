//! File previews: which kind of preview a file gets, and what it holds.

use crate::parser::lits;
use crate::paths::{opt_chars, path_extension, spec_extension};
use crate::text::{lowercase, spec_lowercase, to_chars};
use vstd::prelude::*;

verus! {

/// The kind of preview that a file gets.
#[derive(Debug, Clone, Copy, PartialEq, Eq, Structural)]
pub enum PreviewKind {
    Text,
    Markdown,
    Image,
    Unsupported,
}

/// The most bytes read for a text or Markdown preview.
pub const MAX_TEXT_BYTES: usize = 65536;

pub open spec fn text_extensions() -> Seq<Seq<char>> {
    seq![
        "txt"@, "log"@, "json"@, "jsonc"@, "yaml"@, "yml"@, "toml"@, "ini"@, "cfg"@, "conf"@, "rs"@, "ts"@,
        "tsx"@, "js"@, "jsx"@, "py"@, "go"@, "java"@, "c"@, "h"@, "cpp"@, "hpp"@, "cs"@, "rb"@, "php"@,
        "sh"@, "bat"@, "ps1"@, "css"@, "scss"@, "html"@, "xml"@, "sql"@, "csv"@, "env"@,
    ]
}

pub open spec fn markdown_extensions() -> Seq<Seq<char>> {
    seq!["md"@, "markdown"@]
}

pub open spec fn image_extensions() -> Seq<Seq<char>> {
    seq!["png"@, "jpg"@, "jpeg"@, "gif"@, "webp"@, "bmp"@, "svg"@, "ico"@]
}

/// The kind of preview for a lower-cased extension.
pub open spec fn kind_of_extension(ext: Seq<char>) -> PreviewKind {
    if markdown_extensions().contains(ext) {
        PreviewKind::Markdown
    } else if text_extensions().contains(ext) {
        PreviewKind::Text
    } else if image_extensions().contains(ext) {
        PreviewKind::Image
    } else {
        PreviewKind::Unsupported
    }
}

/// The kind of preview for a path, by its extension.
pub open spec fn spec_classify(path: Seq<char>) -> PreviewKind {
    match spec_extension(path) {
        Some(e) => kind_of_extension(spec_lowercase(e)),
        None => PreviewKind::Unsupported,
    }
}

fn in_list(t: &Vec<char>, list: &Vec<&str>) -> (r: bool)
    ensures
        r == lits(list@).contains(t@),
{
    let mut k: usize = 0;
    while k < list.len()
        invariant
            k <= list.len(),
            forall|j: int| 0 <= j < k ==> lits(list@)[j] != t@,
        decreases list.len() - k,
    {
        if crate::text::eq_lit(t, list[k]) {
            assert(lits(list@)[k as int] == t@);
            return true;
        }
        k = k + 1;
    }
    false
}

/// The kind of preview for a file, by its extension (case ignored).
pub fn classify(path: &str) -> (r: PreviewKind)
    ensures
        r == spec_classify(path@),
{
    let ext = match path_extension(path) {
        Some(e) => lowercase(e.as_str()),
        None => {
            return PreviewKind::Unsupported;
        },
    };
    let e = to_chars(ext.as_str());
    let markdown: Vec<&str> = vec!["md", "markdown"];
    let text: Vec<&str> = vec![
        "txt", "log", "json", "jsonc", "yaml", "yml", "toml", "ini", "cfg", "conf", "rs", "ts", "tsx", "js",
        "jsx", "py", "go", "java", "c", "h", "cpp", "hpp", "cs", "rb", "php", "sh", "bat", "ps1", "css",
        "scss", "html", "xml", "sql", "csv", "env",
    ];
    let image: Vec<&str> = vec!["png", "jpg", "jpeg", "gif", "webp", "bmp", "svg", "ico"];
    assert(lits(markdown@) =~= markdown_extensions());
    assert(lits(text@) =~= text_extensions());
    assert(lits(image@) =~= image_extensions());
    if in_list(&e, &markdown) {
        PreviewKind::Markdown
    } else if in_list(&e, &text) {
        PreviewKind::Text
    } else if in_list(&e, &image) {
        PreviewKind::Image
    } else {
        PreviewKind::Unsupported
    }
}

/// Which preview a file gets, by the lower-cased extension of its name: png,
/// jpg, jpeg, gif, webp, bmp, svg and ico are images; md and markdown are
/// Markdown; the usual text, configuration, source and data extensions
/// (txt, log, json, yaml, toml, rs, py, c, html, csv, env and the others
/// listed here) are text; any other extension, or none, has no preview.
pub proof fn lemma_classify_by_extension(path: Seq<char>)
    ensures
        spec_extension(path) is None ==> spec_classify(path) == PreviewKind::Unsupported,
        spec_extension(path) matches Some(x) ==> ({
            let e = spec_lowercase(x);
            let image = e == "png"@ || e == "jpg"@ || e == "jpeg"@ || e == "gif"@ || e == "webp"@
                || e == "bmp"@ || e == "svg"@ || e == "ico"@;
            let markdown = e == "md"@ || e == "markdown"@;
            let text = e == "txt"@ || e == "log"@ || e == "json"@ || e == "jsonc"@ || e == "yaml"@
                || e == "yml"@ || e == "toml"@ || e == "ini"@ || e == "cfg"@ || e == "conf"@
                || e == "rs"@ || e == "ts"@ || e == "tsx"@ || e == "js"@ || e == "jsx"@
                || e == "py"@ || e == "go"@ || e == "java"@ || e == "c"@ || e == "h"@
                || e == "cpp"@ || e == "hpp"@ || e == "cs"@ || e == "rb"@ || e == "php"@
                || e == "sh"@ || e == "bat"@ || e == "ps1"@ || e == "css"@ || e == "scss"@
                || e == "html"@ || e == "xml"@ || e == "sql"@ || e == "csv"@ || e == "env"@;
            &&& image ==> spec_classify(path) == PreviewKind::Image
            &&& markdown ==> spec_classify(path) == PreviewKind::Markdown
            &&& text ==> spec_classify(path) == PreviewKind::Text
            &&& !image && !markdown && !text ==> spec_classify(path) == PreviewKind::Unsupported
        }),
{
    reveal_strlit("md");
    reveal_strlit("markdown");
    reveal_strlit("txt");
    reveal_strlit("log");
    reveal_strlit("json");
    reveal_strlit("jsonc");
    reveal_strlit("yaml");
    reveal_strlit("yml");
    reveal_strlit("toml");
    reveal_strlit("ini");
    reveal_strlit("cfg");
    reveal_strlit("conf");
    reveal_strlit("rs");
    reveal_strlit("ts");
    reveal_strlit("tsx");
    reveal_strlit("js");
    reveal_strlit("jsx");
    reveal_strlit("py");
    reveal_strlit("go");
    reveal_strlit("java");
    reveal_strlit("c");
    reveal_strlit("h");
    reveal_strlit("cpp");
    reveal_strlit("hpp");
    reveal_strlit("cs");
    reveal_strlit("rb");
    reveal_strlit("php");
    reveal_strlit("sh");
    reveal_strlit("bat");
    reveal_strlit("ps1");
    reveal_strlit("css");
    reveal_strlit("scss");
    reveal_strlit("html");
    reveal_strlit("xml");
    reveal_strlit("sql");
    reveal_strlit("csv");
    reveal_strlit("env");
    reveal_strlit("png");
    reveal_strlit("jpg");
    reveal_strlit("jpeg");
    reveal_strlit("gif");
    reveal_strlit("webp");
    reveal_strlit("bmp");
    reveal_strlit("svg");
    reveal_strlit("ico");
    if let Some(x) = spec_extension(path) {
        let e = spec_lowercase(x);
        assert(markdown_extensions().contains(e) <==> (e == "md"@ || e == "markdown"@));
        assert(text_extensions().contains(e) <==> (e == "txt"@ || e == "log"@ || e == "json"@ || e == "jsonc"@ || e == "yaml"@
                || e == "yml"@ || e == "toml"@ || e == "ini"@ || e == "cfg"@ || e == "conf"@
                || e == "rs"@ || e == "ts"@ || e == "tsx"@ || e == "js"@ || e == "jsx"@
                || e == "py"@ || e == "go"@ || e == "java"@ || e == "c"@ || e == "h"@
                || e == "cpp"@ || e == "hpp"@ || e == "cs"@ || e == "rb"@ || e == "php"@
                || e == "sh"@ || e == "bat"@ || e == "ps1"@ || e == "css"@ || e == "scss"@
                || e == "html"@ || e == "xml"@ || e == "sql"@ || e == "csv"@ || e == "env"@));
        assert(image_extensions().contains(e) <==> (e == "png"@ || e == "jpg"@ || e == "jpeg"@ || e == "gif"@ || e == "webp"@
                || e == "bmp"@ || e == "svg"@ || e == "ico"@));
        if e == "md"@ {
            assert(e.len() == 2 && e[0] == 'm' && e[1] == 'd');
        }
        if e == "markdown"@ {
            assert(e.len() == 8 && e[0] == 'm' && e[1] == 'a');
        }
        if e == "txt"@ {
            assert(e.len() == 3 && e[0] == 't' && e[1] == 'x');
        }
        if e == "log"@ {
            assert(e.len() == 3 && e[0] == 'l' && e[1] == 'o');
        }
        if e == "json"@ {
            assert(e.len() == 4 && e[0] == 'j' && e[1] == 's');
        }
        if e == "jsonc"@ {
            assert(e.len() == 5 && e[0] == 'j' && e[1] == 's');
        }
        if e == "yaml"@ {
            assert(e.len() == 4 && e[0] == 'y' && e[1] == 'a');
        }
        if e == "yml"@ {
            assert(e.len() == 3 && e[0] == 'y' && e[1] == 'm');
        }
        if e == "toml"@ {
            assert(e.len() == 4 && e[0] == 't' && e[1] == 'o');
        }
        if e == "ini"@ {
            assert(e.len() == 3 && e[0] == 'i' && e[1] == 'n');
        }
        if e == "cfg"@ {
            assert(e.len() == 3 && e[0] == 'c' && e[1] == 'f');
        }
        if e == "conf"@ {
            assert(e.len() == 4 && e[0] == 'c' && e[1] == 'o');
        }
        if e == "rs"@ {
            assert(e.len() == 2 && e[0] == 'r' && e[1] == 's');
        }
        if e == "ts"@ {
            assert(e.len() == 2 && e[0] == 't' && e[1] == 's');
        }
        if e == "tsx"@ {
            assert(e.len() == 3 && e[0] == 't' && e[1] == 's');
        }
        if e == "js"@ {
            assert(e.len() == 2 && e[0] == 'j' && e[1] == 's');
        }
        if e == "jsx"@ {
            assert(e.len() == 3 && e[0] == 'j' && e[1] == 's');
        }
        if e == "py"@ {
            assert(e.len() == 2 && e[0] == 'p' && e[1] == 'y');
        }
        if e == "go"@ {
            assert(e.len() == 2 && e[0] == 'g' && e[1] == 'o');
        }
        if e == "java"@ {
            assert(e.len() == 4 && e[0] == 'j' && e[1] == 'a');
        }
        if e == "c"@ {
            assert(e.len() == 1 && e[0] == 'c');
        }
        if e == "h"@ {
            assert(e.len() == 1 && e[0] == 'h');
        }
        if e == "cpp"@ {
            assert(e.len() == 3 && e[0] == 'c' && e[1] == 'p');
        }
        if e == "hpp"@ {
            assert(e.len() == 3 && e[0] == 'h' && e[1] == 'p');
        }
        if e == "cs"@ {
            assert(e.len() == 2 && e[0] == 'c' && e[1] == 's');
        }
        if e == "rb"@ {
            assert(e.len() == 2 && e[0] == 'r' && e[1] == 'b');
        }
        if e == "php"@ {
            assert(e.len() == 3 && e[0] == 'p' && e[1] == 'h');
        }
        if e == "sh"@ {
            assert(e.len() == 2 && e[0] == 's' && e[1] == 'h');
        }
        if e == "bat"@ {
            assert(e.len() == 3 && e[0] == 'b' && e[1] == 'a');
        }
        if e == "ps1"@ {
            assert(e.len() == 3 && e[0] == 'p' && e[1] == 's');
        }
        if e == "css"@ {
            assert(e.len() == 3 && e[0] == 'c' && e[1] == 's');
        }
        if e == "scss"@ {
            assert(e.len() == 4 && e[0] == 's' && e[1] == 'c');
        }
        if e == "html"@ {
            assert(e.len() == 4 && e[0] == 'h' && e[1] == 't');
        }
        if e == "xml"@ {
            assert(e.len() == 3 && e[0] == 'x' && e[1] == 'm');
        }
        if e == "sql"@ {
            assert(e.len() == 3 && e[0] == 's' && e[1] == 'q');
        }
        if e == "csv"@ {
            assert(e.len() == 3 && e[0] == 'c' && e[1] == 's');
        }
        if e == "env"@ {
            assert(e.len() == 3 && e[0] == 'e' && e[1] == 'n');
        }
        if e == "png"@ {
            assert(e.len() == 3 && e[0] == 'p' && e[1] == 'n');
        }
        if e == "jpg"@ {
            assert(e.len() == 3 && e[0] == 'j' && e[1] == 'p');
        }
        if e == "jpeg"@ {
            assert(e.len() == 4 && e[0] == 'j' && e[1] == 'p');
        }
        if e == "gif"@ {
            assert(e.len() == 3 && e[0] == 'g' && e[1] == 'i');
        }
        if e == "webp"@ {
            assert(e.len() == 4 && e[0] == 'w' && e[1] == 'e');
        }
        if e == "bmp"@ {
            assert(e.len() == 3 && e[0] == 'b' && e[1] == 'm');
        }
        if e == "svg"@ {
            assert(e.len() == 3 && e[0] == 's' && e[1] == 'v');
        }
        if e == "ico"@ {
            assert(e.len() == 3 && e[0] == 'i' && e[1] == 'c');
        }
    }
}

/// Why a preview could not be made.
#[derive(Debug)]
pub enum PreviewError {
    /// The file does not exist; the path is given.
    NotFound(String),
    /// Reading failed; the reason is given.
    Io(String),
}

/// A preview of a file.
#[derive(Debug, Clone)]
pub enum PreviewResult {
    /// Plain text or code: the start of the file, read as UTF-8.
    Text { content: String, truncated: bool },
    /// Markdown, rendered by the viewer.
    Markdown { content: String, truncated: bool },
    /// An image, which the viewer loads itself.
    Image,
    /// A file without a preview.
    Unsupported,
}

/// What making a preview takes next.
#[derive(Debug, Clone, Copy, PartialEq, Eq, Structural)]
pub enum PreviewStep {
    /// Report that the file is missing.
    Missing,
    /// Read the start of the file, at most `MAX_TEXT_BYTES` bytes.
    ReadHead,
    /// Nothing to read: the preview is known.
    Done,
}

/// The first step of a preview of a file of this kind, given whether the
/// file exists.
pub fn preview_step(exists: bool, kind: PreviewKind) -> (r: PreviewStep)
    ensures
        !exists ==> r == PreviewStep::Missing,
        exists && (kind == PreviewKind::Text || kind == PreviewKind::Markdown) ==> r == PreviewStep::ReadHead,
        exists && (kind == PreviewKind::Image || kind == PreviewKind::Unsupported) ==> r == PreviewStep::Done,
{
    if !exists {
        PreviewStep::Missing
    } else {
        match kind {
            PreviewKind::Text | PreviewKind::Markdown => PreviewStep::ReadHead,
            _ => PreviewStep::Done,
        }
    }
}

/// The preview of a file of this kind, from the start of the file read for
/// it (nothing for an image or an unsupported file).
pub fn preview_result(kind: PreviewKind, content: String, truncated: bool) -> (r: PreviewResult)
    ensures
        kind == PreviewKind::Text ==> r == (PreviewResult::Text { content, truncated }),
        kind == PreviewKind::Markdown ==> r == (PreviewResult::Markdown { content, truncated }),
        kind == PreviewKind::Image ==> r == PreviewResult::Image,
        kind == PreviewKind::Unsupported ==> r == PreviewResult::Unsupported,
{
    match kind {
        PreviewKind::Text => PreviewResult::Text { content, truncated },
        PreviewKind::Markdown => PreviewResult::Markdown { content, truncated },
        PreviewKind::Image => PreviewResult::Image,
        PreviewKind::Unsupported => PreviewResult::Unsupported,
    }
}

/// Whether a head read of `max_bytes` bytes left part of the file unread:
/// the buffer filled up and one more byte could be read.
pub fn head_truncated(total: usize, max_bytes: usize, has_more: bool) -> (r: bool)
    ensures
        r == (total == max_bytes && has_more),
{
    total == max_bytes && has_more
}

} // verus!
