//! The language of a file, chosen by its name, and the highlighting it enables.
use vstd::prelude::*;
use vstd::string::StrSliceExecFns;
use vstd::string::StringExecFns;

verus! {

/// Which lexical classes the highlighter marks.
#[derive(Debug, Copy, Clone)]
pub struct HighLightingOptions {
    numbers: bool,
    strings: bool,
    characters: bool,
}

impl HighLightingOptions {
    pub closed spec fn spec_numbers(self) -> bool {
        self.numbers
    }

    pub closed spec fn spec_strings(self) -> bool {
        self.strings
    }

    pub closed spec fn spec_characters(self) -> bool {
        self.characters
    }

    #[verifier::when_used_as_spec(spec_numbers)]
    pub fn numbers(self) -> (r: bool)
        ensures
            r == self.spec_numbers(),
    {
        self.numbers
    }

    #[verifier::when_used_as_spec(spec_strings)]
    pub fn strings(self) -> (r: bool)
        ensures
            r == self.spec_strings(),
    {
        self.strings
    }

    #[verifier::when_used_as_spec(spec_characters)]
    pub fn characters(self) -> (r: bool)
        ensures
            r == self.spec_characters(),
    {
        self.characters
    }
}

impl Default for HighLightingOptions {
    fn default() -> (r: Self)
        ensures
            !r.numbers(),
            !r.strings(),
            !r.characters(),
    {
        HighLightingOptions { numbers: false, strings: false, characters: false }
    }
}

/// A file type: a display name and its highlighting options.
#[derive(Debug)]
pub struct FileType {
    name: String,
    hl_opts: HighLightingOptions,
}

/// A name that ends in `.rs` belongs to a Rust source file.
pub open spec fn is_rust_file(name: Seq<char>) -> bool {
    name.len() >= 3 && name.subrange(name.len() - 3, name.len() as int) == seq!['.', 'r', 's']
}

pub open spec fn rust_name() -> Seq<char> {
    seq!['R', 'u', 's', 't']
}

pub open spec fn default_name() -> Seq<char> {
    seq!['N', 'o', ' ', 'f', 'i', 'l', 'e', 't', 'y', 'p', 'e']
}

impl FileType {
    pub closed spec fn spec_name(&self) -> Seq<char> {
        self.name@
    }

    pub closed spec fn spec_options(&self) -> HighLightingOptions {
        self.hl_opts
    }

    /// The file type of a file named `file_name`: Rust, with every class
    /// enabled, for a `.rs` name; otherwise the default type, with none.
    pub fn from(file_name: &str) -> (r: Self)
        ensures
            is_rust_file(file_name@) ==> r.spec_name() == rust_name()
                && r.spec_options().numbers() && r.spec_options().strings()
                && r.spec_options().characters(),
            !is_rust_file(file_name@) ==> r.spec_name() == default_name()
                && !r.spec_options().numbers() && !r.spec_options().strings()
                && !r.spec_options().characters(),
    {
        if ends_with_rs(file_name) {
            let name = String::from_str("Rust");
            proof {
                reveal_strlit("Rust");
                assert(name@ =~= rust_name());
            }
            return FileType {
                name,
                hl_opts: HighLightingOptions { numbers: true, strings: true, characters: true },
            };
        }
        Self::default()
    }

    pub fn name(&self) -> (r: String)
        ensures
            r@ == self.spec_name(),
    {
        self.name.clone()
    }

    pub fn highlighting_options(&self) -> (r: HighLightingOptions)
        ensures
            r == self.spec_options(),
    {
        self.hl_opts
    }
}

impl Default for FileType {
    fn default() -> (r: Self)
        ensures
            r.spec_name() == default_name(),
            !r.spec_options().numbers(),
            !r.spec_options().strings(),
            !r.spec_options().characters(),
    {
        let name = String::from_str("No filetype");
        proof {
            reveal_strlit("No filetype");
            assert(name@ =~= default_name());
        }
        FileType { name, hl_opts: HighLightingOptions::default() }
    }
}

fn ends_with_rs(s: &str) -> (r: bool)
    ensures
        r == is_rust_file(s@),
{
    let n = s.unicode_len();
    if n < 3 {
        return false;
    }
    let r = s.get_char(n - 3) == '.' && s.get_char(n - 2) == 'r' && s.get_char(n - 1) == 's';
    proof {
        let tail = s@.subrange(n - 3, n as int);
        if r {
            assert(tail =~= seq!['.', 'r', 's']);
        } else if tail == seq!['.', 'r', 's'] {
            assert(tail[0] == s@[n - 3]);
            assert(tail[1] == s@[n - 2]);
            assert(tail[2] == s@[n - 1]);
        }
    }
    r
}

} // verus!
