//! Paths to files. What separates the components of a path rests on the machine, so a
//! path comes with the parts that it falls into there.
use vstd::prelude::*;
use vstd::string::*;

verus! {

/// A path and its parts.
#[derive(Debug, Clone, Default)]
pub struct FilePath {
    /// The whole path.
    pub text: String,
    /// The last component, where it names a file or a directory.
    pub name: Option<String>,
    /// The name up to its extension.
    pub stem: Option<String>,
    /// The extension of the name.
    pub extension: Option<String>,
    /// The path to the directory that holds what the path leads to.
    pub parent: Option<String>,
    /// The path up to the extension of the name.
    pub bare: String,
}

/// A path and its parts, as sequences of characters.
pub struct PathView {
    pub text: Seq<char>,
    pub name: Option<Seq<char>>,
    pub stem: Option<Seq<char>>,
    pub extension: Option<Seq<char>>,
    pub parent: Option<Seq<char>>,
    pub bare: Seq<char>,
}

impl View for FilePath {
    type V = PathView;

    open spec fn view(&self) -> PathView {
        PathView {
            text: self.text@,
            name: text_view(self.name),
            stem: text_view(self.stem),
            extension: text_view(self.extension),
            parent: text_view(self.parent),
            bare: self.bare@,
        }
    }
}

/// A text, where there is one, as a sequence of characters.
pub open spec fn text_view(s: Option<String>) -> Option<Seq<char>> {
    match s {
        Some(s) => Some(s@),
        None => None,
    }
}

/// Copies a text, where there is one.
pub fn copy_text(s: &Option<String>) -> (r: Option<String>)
    ensures
        text_view(r) == text_view(*s),
{
    match s {
        Some(s) => Some(String::from_str(s)),
        None => None,
    }
}

/// The path with the extension of its file replaced; one that leads to no file stays.
pub open spec fn with_extension(path: PathView, ext: Seq<char>) -> PathView {
    match (path.name, path.stem) {
        (Some(_), Some(stem)) => PathView {
            text: path.bare + "."@ + ext,
            name: Some(stem + "."@ + ext),
            extension: Some(ext),
            ..path
        },
        _ => path,
    }
}

/// How a path is called in messages: by its file name, or in full.
pub open spec fn path_label(path: PathView) -> Seq<char> {
    match path.name {
        Some(name) => name,
        None => path.text,
    }
}

fn with_dot(text: &str, ext: &str) -> (s: String)
    ensures
        s@ == text@ + "."@ + ext@,
{
    let mut s = String::from_str(text);
    s.append(".");
    s.append(ext);
    s
}

impl FilePath {
    /// The same path again.
    pub fn duplicate(&self) -> (p: FilePath)
        ensures
            p@ == self@,
    {
        FilePath {
            text: String::from_str(&self.text),
            name: copy_text(&self.name),
            stem: copy_text(&self.stem),
            extension: copy_text(&self.extension),
            parent: copy_text(&self.parent),
            bare: String::from_str(&self.bare),
        }
    }

    /// Replaces the extension of the file that the path leads to.
    pub fn with_extension(&self, ext: &str) -> (p: FilePath)
        ensures
            p@ == with_extension(self@, ext@),
    {
        match (&self.name, &self.stem) {
            (Some(_), Some(stem)) => FilePath {
                text: with_dot(&self.bare, ext),
                name: Some(with_dot(stem, ext)),
                stem: copy_text(&self.stem),
                extension: Some(String::from_str(ext)),
                parent: copy_text(&self.parent),
                bare: String::from_str(&self.bare),
            },
            _ => self.duplicate(),
        }
    }
}

/// Names a path in messages.
pub fn display_path_name(path: &FilePath) -> (s: String)
    ensures
        s@ == path_label(path@),
{
    match &path.name {
        Some(name) => String::from_str(name),
        None => String::from_str(&path.text),
    }
}

} // verus!
