//! Character classes used by the markup scanner, and the length of the
//! longest run of characters of a class from a given position.

use vstd::prelude::*;

verus! {

/// The characters the scanner treats as whitespace: the Unicode
/// `White_Space` code points.
pub open spec fn is_space(c: char) -> bool {
    let u = c as u32;
    u == 0x09 || u == 0x0A || u == 0x0B || u == 0x0C || u == 0x0D || u == 0x20 || u == 0x85
        || u == 0xA0 || u == 0x1680 || (0x2000 <= u && u <= 0x200A) || u == 0x2028 || u == 0x2029
        || u == 0x202F || u == 0x205F || u == 0x3000
}

/// Tag names are runs of ASCII alphanumeric characters.
pub open spec fn is_tag_name_char(c: char) -> bool {
    let u = c as u32;
    (0x30 <= u && u <= 0x39) || (0x41 <= u && u <= 0x5A) || (0x61 <= u && u <= 0x7A)
}

/// Control characters, excluded from attribute names.
pub open spec fn is_control(c: char) -> bool {
    let u = c as u32;
    u <= 0x1F || u == 0x7F || (0x80 <= u && u <= 0x9F)
}

/// Characters excluded from attribute names besides controls.
pub open spec fn is_excluded_name(c: char) -> bool {
    c == ' ' || c == '"' || c == '\'' || c == '>' || c == '/' || c == '='
}

/// A character that may appear in an attribute name.
pub open spec fn is_attr_name_char(c: char) -> bool {
    !is_excluded_name(c) && !is_control(c)
}

/// A character that may appear in an unquoted attribute value.
pub open spec fn is_attr_value_char(c: char) -> bool {
    !(c == ' ' || c == '"' || c == '\'' || c == '=' || c == '<' || c == '>' || c == '`')
}

/// ASCII case folding, character by character.
pub open spec fn lower_char(c: char) -> char {
    if 0x41 <= (c as u32) && (c as u32) <= 0x5A {
        ((((c as u32) as u8) + 32) as char)
    } else {
        c
    }
}

/// A sequence of ASCII characters, case-folded character by character.
pub open spec fn lower_seq(s: Seq<char>) -> Seq<char> {
    s.map_values(|c: char| lower_char(c))
}

/// What Unicode lowercasing makes of a sequence of characters: the fold
/// applied to attribute names. A function of the characters alone.
pub uninterp spec fn lower_of(s: Seq<char>) -> Seq<char>;

/// Relies on `str::to_lowercase`: the result depends on the characters
/// alone, and on an all-ASCII input it folds exactly `A`-`Z` to `a`-`z`,
/// keeping every other character.
#[verifier::external_body]
pub fn lowercase(s: &str) -> (r: String)
    ensures
        r@ == lower_of(s@),
        (forall|i: int| 0 <= i < s@.len() ==> (s@[i] as u32) < 128) ==> r@ == lower_seq(s@),
{
    s.to_lowercase()
}

/// The classes of characters the scanner consumes runs of.
#[derive(Clone, Copy)]
pub enum Cond {
    /// Whitespace.
    Space,
    /// ASCII alphanumeric, as in a tag name.
    TagName,
    /// Valid in an attribute name.
    AttrName,
    /// Valid in an unquoted attribute value.
    AttrValue,
    /// Part of a text run: neither whitespace nor `<`.
    TextPart,
    /// Part of a comment body run: neither `<` nor `-`.
    CommentRun,
    /// Stray characters glued to an attribute value: neither whitespace nor `>`.
    AttrJunk,
    /// Any character but whitespace.
    NonSpace,
    /// Any character but the one given.
    NotChar(char),
}

/// Whether a character belongs to a class.
pub open spec fn holds_for(k: Cond, c: char) -> bool {
    match k {
        Cond::Space => is_space(c),
        Cond::TagName => is_tag_name_char(c),
        Cond::AttrName => is_attr_name_char(c),
        Cond::AttrValue => is_attr_value_char(c),
        Cond::TextPart => !is_space(c) && c != '<',
        Cond::CommentRun => c != '<' && c != '-',
        Cond::AttrJunk => !is_space(c) && c != '>',
        Cond::NonSpace => !is_space(c),
        Cond::NotChar(stop) => c != stop,
    }
}

fn space_check(c: char) -> (r: bool)
    ensures
        r == is_space(c),
{
    let u = c as u32;
    u == 0x09 || u == 0x0A || u == 0x0B || u == 0x0C || u == 0x0D || u == 0x20 || u == 0x85
        || u == 0xA0 || u == 0x1680 || (0x2000 <= u && u <= 0x200A) || u == 0x2028 || u == 0x2029
        || u == 0x202F || u == 0x205F || u == 0x3000
}

/// Whether a character belongs to a class, decided at run time.
pub fn cond_check(k: Cond, c: char) -> (r: bool)
    ensures
        r == holds_for(k, c),
{
    match k {
        Cond::Space => space_check(c),
        Cond::TagName => {
            let u = c as u32;
            (0x30 <= u && u <= 0x39) || (0x41 <= u && u <= 0x5A) || (0x61 <= u && u <= 0x7A)
        },
        Cond::AttrName => {
            let u = c as u32;
            let excluded = c == ' ' || c == '"' || c == '\'' || c == '>' || c == '/' || c == '=';
            let control = u <= 0x1F || u == 0x7F || (0x80 <= u && u <= 0x9F);
            !excluded && !control
        },
        Cond::AttrValue => {
            !(c == ' ' || c == '"' || c == '\'' || c == '=' || c == '<' || c == '>' || c == '`')
        },
        Cond::TextPart => !space_check(c) && c != '<',
        Cond::CommentRun => c != '<' && c != '-',
        Cond::AttrJunk => !space_check(c) && c != '>',
        Cond::NonSpace => !space_check(c),
        Cond::NotChar(stop) => c != stop,
    }
}

/// The length of the longest run of characters of class `k` in `s`
/// starting at position `i`.
pub open spec fn run_len(s: Seq<char>, i: int, k: Cond) -> nat
    decreases s.len() - i,
        when 0 <= i <= s.len()
{
    if i < s.len() && holds_for(k, s[i]) {
        (1 + run_len(s, i + 1, k)) as nat
    } else {
        0
    }
}

/// Relies on `String: FromIterator<char>`: collecting characters builds the
/// string of exactly those characters, in order.
#[verifier::external_body]
pub fn chars_to_string(v: &Vec<char>) -> (r: String)
    ensures
        r@ == v@,
{
    v.iter().collect()
}

/// Relies on `str::chars`: iterating a string yields exactly its characters,
/// in order.
#[verifier::external_body]
pub fn str_chars(s: &str) -> (r: Vec<char>)
    ensures
        r@ == s@,
{
    s.chars().collect()
}

/// The maximal-run facts about `run_len`: the run stays inside `s`, every
/// character of the run is of the class, and the run ends at the end of `s`
/// or at a character outside the class.
pub proof fn lemma_run_len(s: Seq<char>, i: int, k: Cond)
    requires
        0 <= i <= s.len(),
    ensures
        i + run_len(s, i, k) <= s.len(),
        forall|j: int| i <= j < i + run_len(s, i, k) ==> holds_for(k, #[trigger] s[j]),
        i + run_len(s, i, k) == s.len() || !holds_for(k, s[i + run_len(s, i, k)]),
    decreases s.len() - i,
{
    if i < s.len() && holds_for(k, s[i]) {
        lemma_run_len(s, i + 1, k);
    }
}

/// A run of characters of class `k` splits: the run from `i` is the stretch
/// up to `j` plus the run from `j`, whenever every character before `j` is
/// of the class.
pub proof fn lemma_run_extend(s: Seq<char>, i: int, j: int, k: Cond)
    requires
        0 <= i <= j <= s.len(),
        forall|m: int| i <= m < j ==> holds_for(k, #[trigger] s[m]),
    ensures
        run_len(s, i, k) == (j - i) + run_len(s, j, k),
    decreases j - i,
{
    if i < j {
        lemma_run_extend(s, i + 1, j, k);
    }
}

} // verus!
