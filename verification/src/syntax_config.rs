//! COSY or Rosy syntax for the file being read (`.fox` or `.rosy`), and that file's path.

use vstd::prelude::*;
use crate::text::{chars_of, chars_eq_ignore_ascii_case, eq_ignore_ascii_case};

verus! {

/// The extension of a path, as `std::path::Path::extension` gives it, when it is valid text.
pub uninterp spec fn path_extension(path: Seq<char>) -> Option<Seq<char>>;

/// Calls `Path::extension`, then `OsStr::to_str`. Trusted: the result is the one the name
/// `path_extension` stands for, a function of the path text alone for the path syntax of the
/// target the crate is built for (Unix and Windows split components differently); what counts
/// as the extension (the text after the last dot of the file name) is not stated.
#[verifier::external_body]
pub(crate) fn extension_of(path: &str) -> (r: Option<String>)
    ensures
        opt_view(r) == path_extension(path@),
{
    std::path::Path::new(path).extension().and_then(|e| e.to_str()).map(|e| e.to_string())
}

/// An optional string, by its characters.
pub open spec fn opt_view(o: Option<String>) -> Option<Seq<char>> {
    match o {
        Some(s) => Some(s@),
        None => None,
    }
}

/// An optional string slice, by its characters.
pub open spec fn opt_str_view(o: Option<&str>) -> Option<Seq<char>> {
    match o {
        Some(s) => Some(s@),
        None => None,
    }
}

/// The extension names a COSY source: `fox`, in any case.
pub open spec fn is_fox_ext(ext: Option<Seq<char>>) -> bool {
    match ext {
        Some(e) => eq_ignore_ascii_case(e, seq!['f', 'o', 'x']),
        None => false,
    }
}

/// A path whose extension is `fox` (in any case) is a COSY source.
pub open spec fn fox_path(path: Seq<char>) -> bool {
    is_fox_ext(path_extension(path))
}

/// Whether an extension, as `Path::extension` gave it, names a COSY source.
pub fn is_fox_extension(ext: &Option<String>) -> (r: bool)
    ensures
        r == is_fox_ext(opt_view(*ext)),
{
    match ext {
        Some(e) => {
            let c = chars_of(e.as_str());
            let mut fox: Vec<char> = Vec::new();
            fox.push('f');
            fox.push('o');
            fox.push('x');
            proof {
                assert(fox@ =~= seq!['f', 'o', 'x']);
            }
            chars_eq_ignore_ascii_case(&c, &fox)
        },
        None => false,
    }
}

/// `true` when the path's extension is `fox`, in any case.
pub fn is_fox_path(path: &str) -> (r: bool)
    ensures
        r == fox_path(path@),
{
    let ext = extension_of(path);
    is_fox_extension(&ext)
}

/// Copies an optional string.
fn copy_opt(o: &Option<String>) -> (r: Option<String>)
    ensures
        opt_view(r) == opt_view(*o),
{
    match o {
        Some(s) => Some(s.clone()),
        None => None,
    }
}

/// Copies an optional string slice into an owned string.
fn own_opt(o: Option<&str>) -> (r: Option<String>)
    ensures
        opt_view(r) == opt_str_view(o),
{
    match o {
        Some(s) => Some(s.to_string()),
        None => None,
    }
}

/// The syntax of the source being read, and its path.
pub struct SyntaxConfig {
    pub cosy: bool,
    pub path: Option<String>,
}

impl SyntaxConfig {
    /// Rosy syntax, no current path.
    pub fn new() -> (r: SyntaxConfig)
        ensures
            !r.cosy,
            r.path is None,
    {
        SyntaxConfig { cosy: false, path: None }
    }

    pub fn set_cosy_syntax(&mut self, enabled: bool)
        ensures
            final(self).cosy == enabled,
            opt_view(final(self).path) == opt_view(old(self).path),
    {
        self.cosy = enabled;
    }

    pub fn is_cosy_syntax(&self) -> (r: bool)
        ensures
            r == self.cosy,
    {
        self.cosy
    }

    pub fn current_source_path(&self) -> (r: Option<String>)
        ensures
            opt_view(r) == opt_view(self.path),
    {
        copy_opt(&self.path)
    }

    /// COSY syntax exactly when there is a path and it ends in `.fox`; a missing path means
    /// Rosy. The current path is left as it is.
    pub fn apply_from_path(&mut self, path: Option<&str>)
        ensures
            final(self).cosy == (match path {
                Some(p) => fox_path(p@),
                None => false,
            }),
            opt_view(final(self).path) == opt_view(old(self).path),
    {
        let cosy = match path {
            Some(p) => is_fox_path(p),
            None => false,
        };
        self.set_cosy_syntax(cosy);
    }

    /// Runs `f` on the configuration for `path` (its syntax and current path set from it),
    /// and leaves this configuration as it was.
    pub fn with_path<T, F: FnOnce(SyntaxConfig) -> T>(&mut self, path: Option<&str>, f: F) -> (out: T)
        requires
            forall|c: SyntaxConfig|
                c.cosy == (match path {
                    Some(p) => fox_path(p@),
                    None => false,
                }) && opt_view(c.path) == opt_str_view(path) ==> #[trigger] f.requires((c,)),
        ensures
            final(self).cosy == old(self).cosy,
            opt_view(final(self).path) == opt_view(old(self).path),
            exists|c: SyntaxConfig|
                c.cosy == (match path {
                    Some(p) => fox_path(p@),
                    None => false,
                }) && opt_view(c.path) == opt_str_view(path) && #[trigger] f.ensures((c,), out),
    {
        let mut inner = SyntaxConfig { cosy: self.cosy, path: own_opt(path) };
        inner.apply_from_path(path);
        let ghost c = inner;
        let out = f(inner);
        assert(f.ensures((c,), out));
        out
    }
}

} // verus!
