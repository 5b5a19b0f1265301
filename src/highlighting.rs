//! Highlight tags and the character classes the classifier reads.
use vstd::prelude::*;

verus! {

/// The lexical class of one character of a row.
#[derive(Debug, PartialEq, Eq, Structural, Clone, Copy)]
pub enum Type {
    Normal,
    Number,
    Match,
}

impl Type {
    /// The foreground colour a renderer draws this class in, as red, green, blue.
    pub open spec fn spec_color(self) -> (u8, u8, u8) {
        match self {
            Type::Number => (220, 163, 163),
            Type::Match => (38, 139, 210),
            Type::Normal => (255, 255, 255),
        }
    }

    pub fn to_color(&self) -> (r: (u8, u8, u8))
        ensures
            r == self.spec_color(),
    {
        match self {
            Type::Number => (220, 163, 163),
            Type::Match => (38, 139, 210),
            Type::Normal => (255, 255, 255),
        }
    }
}

pub open spec fn is_digit(c: char) -> bool {
    '0' <= c <= '9'
}

/// ASCII punctuation: the printable ASCII characters that are neither letters,
/// digits nor the space.
pub open spec fn is_punctuation(c: char) -> bool {
    ('!' <= c <= '/') || (':' <= c <= '@') || ('[' <= c <= '`') || ('{' <= c <= '~')
}

/// ASCII whitespace: space, tab, line feed, form feed, carriage return.
pub open spec fn is_whitespace(c: char) -> bool {
    c == ' ' || c == '\t' || c == '\n' || c == '\x0C' || c == '\r'
}

pub open spec fn is_separator(c: char) -> bool {
    is_punctuation(c) || is_whitespace(c)
}

pub fn digit(c: char) -> (r: bool)
    ensures
        r == is_digit(c),
{
    '0' <= c && c <= '9'
}

pub fn separator(c: char) -> (r: bool)
    ensures
        r == is_separator(c),
{
    ('!' <= c && c <= '/') || (':' <= c && c <= '@') || ('[' <= c && c <= '`') || ('{' <= c
        && c <= '~') || c == ' ' || c == '\t' || c == '\n' || c == '\x0C' || c == '\r'
}

/// `n` tags that mark a search match.
pub open spec fn match_run(n: int) -> Seq<Type> {
    Seq::new(n as nat, |_i: int| Type::Match)
}

/// The tag of character `c`, given the tag before it and whether the
/// character before it separates words.
pub open spec fn char_tag(c: char, numbers: bool, prev_sep: bool, prev: Type) -> Type {
    if numbers && ((is_digit(c) && (prev_sep || prev == Type::Number)) || (c == '.' && prev
        == Type::Number)) {
        Type::Number
    } else {
        Type::Normal
    }
}

/// The walk over the characters of a row from `index` on, with `tags` so far:
/// a match start (a member of `matches`) puts `wl` match tags and jumps past
/// them; any other character gets its lexical tag.
pub open spec fn tag_walk(
    chars: Seq<char>,
    numbers: bool,
    matches: Seq<int>,
    wl: int,
    index: int,
    prev_sep: bool,
    tags: Seq<Type>,
) -> Seq<Type>
    decreases (if index < chars.len() {
        chars.len() - index
    } else {
        0
    }),
{
    if index < 0 || index >= chars.len() {
        tags
    } else if wl > 0 && matches.contains(index) {
        tag_walk(chars, numbers, matches, wl, index + wl, prev_sep, tags + match_run(wl))
    } else {
        let c = chars[index];
        let prev = if 0 < index <= tags.len() {
            tags[index - 1]
        } else {
            Type::Normal
        };
        tag_walk(
            chars,
            numbers,
            matches,
            wl,
            index + 1,
            is_separator(c),
            tags.push(char_tag(c, numbers, prev_sep, prev)),
        )
    }
}

/// The tags of a row with characters `chars`, the matches of a word of `wl`
/// clusters starting at `matches`.
pub open spec fn classify(chars: Seq<char>, numbers: bool, matches: Seq<int>, wl: int) -> Seq<Type> {
    tag_walk(chars, numbers, matches, wl, 0, true, Seq::empty())
}

/// Where every match fits inside the row, the walk gives one tag per character.
pub proof fn lemma_walk_len(
    chars: Seq<char>,
    numbers: bool,
    matches: Seq<int>,
    wl: int,
    index: int,
    prev_sep: bool,
    tags: Seq<Type>,
)
    requires
        0 <= index <= chars.len(),
        tags.len() == index,
        forall|j: int| 0 <= j < matches.len() ==> #[trigger] matches[j] + wl <= chars.len(),
    ensures
        tag_walk(chars, numbers, matches, wl, index, prev_sep, tags).len() == chars.len(),
    decreases chars.len() - index,
{
    if index < chars.len() {
        if wl > 0 && matches.contains(index) {
            let j = choose|j: int| 0 <= j < matches.len() && matches[j] == index;
            assert(matches[j] + wl <= chars.len());
            lemma_walk_len(chars, numbers, matches, wl, index + wl, prev_sep, tags + match_run(wl));
        } else {
            let c = chars[index];
            let prev = if 0 < index <= tags.len() {
                tags[index - 1]
            } else {
                Type::Normal
            };
            lemma_walk_len(
                chars,
                numbers,
                matches,
                wl,
                index + 1,
                is_separator(c),
                tags.push(char_tag(c, numbers, prev_sep, prev)),
            );
        }
    }
}

pub open spec fn ints(v: Seq<usize>) -> Seq<int> {
    v.map_values(|u: usize| u as int)
}

pub fn contains(v: &Vec<usize>, x: usize) -> (r: bool)
    ensures
        r == ints(v@).contains(x as int),
{
    let mut i: usize = 0;
    while i < v.len()
        invariant
            i <= v@.len(),
            forall|j: int| 0 <= j < i ==> v@[j] != x,
        decreases v@.len() - i,
    {
        if v[i] == x {
            assert(ints(v@)[i as int] == x as int);
            return true;
        }
        i = i + 1;
    }
    proof {
        if ints(v@).contains(x as int) {
            let j = choose|j: int| 0 <= j < ints(v@).len() && ints(v@)[j] == x as int;
            assert(v@[j] == x);
        }
    }
    false
}

/// Computes the tags that `classify` describes.
pub fn classify_chars(chars: &Vec<char>, numbers: bool, matches: &Vec<usize>, wl: usize) -> (r: Vec<Type>)
    ensures
        r@ == classify(chars@, numbers, ints(matches@), wl as int),
{
    let mut highlighting: Vec<Type> = Vec::new();
    let mut prev_is_separator = true;
    let mut index: usize = 0;
    let n = chars.len();
    while index < n
        invariant
            n == chars@.len(),
            highlighting@.len() == index,
            classify(chars@, numbers, ints(matches@), wl as int) == tag_walk(
                chars@,
                numbers,
                ints(matches@),
                wl as int,
                index as int,
                prev_is_separator,
                highlighting@,
            ),
        decreases (if index < n {
            n - index
        } else {
            0
        }),
    {
        let c = chars[index];
        if wl > 0 && contains(matches, index) {
            let ghost before = highlighting@;
            let mut j: usize = 0;
            while j < wl
                invariant
                    j <= wl,
                    highlighting@ == before + match_run(j as int),
                decreases wl - j,
            {
                highlighting.push(Type::Match);
                proof {
                    assert(before + match_run(j + 1) =~= (before + match_run(j as int)).push(
                        Type::Match,
                    ));
                }
                j = j + 1;
            }
            match index.checked_add(wl) {
                Some(next) => {
                    index = next;
                },
                None => {
                    proof {
                        assert(ints(matches@).contains(index as int));
                        assert(tag_walk(chars@, numbers, ints(matches@), wl as int, index + wl, prev_is_separator, highlighting@) == highlighting@);
                    }
                    return highlighting;
                },
            }
        } else {
            let prev = if index > 0 {
                highlighting[index - 1]
            } else {
                Type::Normal
            };
            let t = if numbers && ((digit(c) && (prev_is_separator || prev == Type::Number)) || (c
                == '.' && prev == Type::Number)) {
                Type::Number
            } else {
                Type::Normal
            };
            highlighting.push(t);
            prev_is_separator = separator(c);
            index = index + 1;
        }
    }
    highlighting
}

} // verus!
