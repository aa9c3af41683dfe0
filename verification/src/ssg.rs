//! Settings and decisions of the static site generator.
use vstd::prelude::*;
use crate::text::chars_of;

verus! {

/// Settings of the static site generator: where the site is read from and
/// where the generated site is written.
pub struct Settings {
    pub source_dir: String,
    pub output_dir: String,
}

impl Settings {
    /// The default settings: `./site` to `./out`.
    pub fn new() -> (s: Self)
        ensures
            s.source_dir@ == "./site"@,
            s.output_dir@ == "./out"@,
    {
        Self { source_dir: "./site".to_owned(), output_dir: "./out".to_owned() }
    }
}

impl Default for Settings {
    fn default() -> (s: Self)
        ensures
            s.source_dir@ == "./site"@,
            s.output_dir@ == "./out"@,
    {
        Self::new()
    }
}

/// What the generator does with an entry of a source directory.
pub enum EntryAction {
    /// A directory: generate it into the directory of the same name.
    Descend,
    /// An HTML page: rewrite it.
    Rewrite,
    /// Anything else: copy it as it is.
    Copy,
}

/// Whether a file name has the extension `html`: it ends with `.html` after
/// at least one character (`.html` alone has no extension).
pub open spec fn has_html_extension(file_name: Seq<char>) -> bool {
    file_name.len() > 5 && file_name.subrange(file_name.len() - 5, file_name.len() as int) == ".html"@
}

/// What the generator does with a directory entry.
pub fn entry_action(is_dir: bool, file_name: &str) -> (r: EntryAction)
    ensures
        r == (if is_dir {
            EntryAction::Descend
        } else if has_html_extension(file_name@) {
            EntryAction::Rewrite
        } else {
            EntryAction::Copy
        }),
{
    if is_dir {
        return EntryAction::Descend;
    }
    let cs = chars_of(file_name);
    let ext = chars_of(".html");
    proof {
        reveal_strlit(".html");
    }
    if cs.len() <= 5 {
        return EntryAction::Copy;
    }
    let base: usize = cs.len() - 5;
    let mut i: usize = 0;
    while i < 5
        invariant
            i <= 5,
            !is_dir,
            base + 5 == cs.len(),
            cs@ == file_name@,
            ext@ == ".html"@,
            ext@.len() == 5,
            forall|k: int| 0 <= k < i ==> cs@[base + k] == ext@[k],
        decreases 5 - i,
    {
        if cs[base + i] != ext[i] {
            assert(cs@.subrange(base as int, cs@.len() as int)[i as int] != ext@[i as int]);
            assert(file_name@.subrange(file_name@.len() - 5, file_name@.len() as int) != ".html"@);
            return EntryAction::Copy;
        }
        i = i + 1;
    }
    assert(cs@.subrange(base as int, cs@.len() as int) =~= ext@);
    EntryAction::Rewrite
}

} // verus!
