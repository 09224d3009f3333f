//! Macro templates: a header with placeholders, compiled into a pattern for
//! whole lines, and a body of raw lines.

use fancy_regex::Regex;
use vstd::prelude::*;
use vstd::string::*;

use crate::text::{
    CharClass, decimal_digits, push_decimal, push_str, run_end, same_text, scan_run, slice, texts,
    to_chars, to_string,
};

verus! {

// =================================================================================================
// Matching
// =================================================================================================

/// What matching a line against a pattern gave.
#[derive(Debug)]
pub enum MatchOutcome {
    /// The pattern is no valid expression.
    BadPattern,
    /// The matcher gave up on the line.
    Failed,
    /// The line does not match.
    Miss,
    /// The line matches. The texts of the capture groups follow, the whole
    /// match first; a group that took no part in the match has none.
    Hit(Vec<Option<String>>),
}

/// What a [`MatchOutcome`] stands for.
pub enum MatchView {
    /// The pattern is no valid expression.
    BadPattern,
    /// The matcher gave up on the line.
    Failed,
    /// The line does not match.
    Miss,
    /// The line matches, with these texts of the capture groups.
    Hit(Seq<Option<Seq<char>>>),
}

/// The texts of a list of capture groups.
pub open spec fn group_texts(groups: Seq<Option<String>>) -> Seq<Option<Seq<char>>> {
    groups.map_values(
        |g: Option<String>|
            match g {
                Some(s) => Some(s@),
                None => None,
            },
    )
}

impl View for MatchOutcome {
    type V = MatchView;

    open spec fn view(&self) -> MatchView {
        match *self {
            MatchOutcome::BadPattern => MatchView::BadPattern,
            MatchOutcome::Failed => MatchView::Failed,
            MatchOutcome::Miss => MatchView::Miss,
            MatchOutcome::Hit(groups) => MatchView::Hit(group_texts(groups@)),
        }
    }
}

/// What the pattern matcher makes of a pattern and a line.
pub uninterp spec fn pattern_match(pattern: Seq<char>, text: Seq<char>) -> MatchView;

/// Compiles `pattern` with `fancy_regex::Regex::new` and looks for its first
/// match in `text` with `Regex::captures`. The outcome depends on the two
/// texts alone, and nothing more is claimed of it: an invalid pattern gives
/// `BadPattern`, a matcher that exceeds its limits `Failed`, no match `Miss`,
/// and a match the captured texts, group 0 first.
#[verifier::external_body]
pub(crate) fn match_pattern(pattern: &str, text: &str) -> (outcome: MatchOutcome)
    ensures
        outcome@ == pattern_match(pattern@, text@),
{
    match Regex::new(pattern) {
        Err(_) => MatchOutcome::BadPattern,
        Ok(regex) => match regex.captures(text) {
            Err(_) => MatchOutcome::Failed,
            Ok(None) => MatchOutcome::Miss,
            Ok(Some(groups)) => MatchOutcome::Hit(
                groups.iter().map(|g| g.map(|m| m.as_str().to_string())).collect(),
            ),
        },
    }
}

// =================================================================================================
// Headers
// =================================================================================================

/// The characters that mean something to the pattern matcher and so are
/// escaped where a header holds them.
pub open spec fn is_meta(c: char) -> bool {
    c == '+' || c == '*' || c == '.' || c == '$' || c == '^' || c == '(' || c == ')' || c == '|'
        || c == '?' || c == '\\' || c == '[' || c == ']'
}

/// `s` with a backslash before each of its meta characters.
pub open spec fn escaped(s: Seq<char>) -> Seq<char>
    decreases s.len(),
{
    if s.len() == 0 {
        Seq::empty()
    } else if is_meta(s.last()) {
        escaped(s.drop_last()).push('\\').push(s.last())
    } else {
        escaped(s.drop_last()).push(s.last())
    }
}

/// Puts a backslash before each meta character of `s`.
pub fn escape(s: &Vec<char>) -> (r: Vec<char>)
    ensures
        r@ == escaped(s@),
{
    let mut r: Vec<char> = Vec::new();
    let mut i: usize = 0;
    while i < s.len()
        invariant
            i <= s.len(),
            r@ == escaped(s@.take(i as int)),
        decreases s.len() - i,
    {
        let c = s[i];
        assert(s@.take(i + 1).drop_last() =~= s@.take(i as int));
        if c == '+' || c == '*' || c == '.' || c == '$' || c == '^' || c == '(' || c == ')' || c
            == '|' || c == '?' || c == '\\' || c == '[' || c == ']' {
            r.push('\\');
        }
        r.push(c);
        i += 1;
    }
    assert(s@.take(s.len() as int) =~= s@);
    r
}

/// Where the placeholder that begins at index `i` of `e` ends: behind the
/// closing brace of `{name}`, the name being one or more word characters.
pub open spec fn hole_end(e: Seq<char>, i: int) -> Option<int> {
    let j = run_end(e, i + 1, CharClass::Word);
    if 0 <= i < e.len() && e[i] == '{' && j > i + 1 && j < e.len() && e[j] == '}' {
        Some(j + 1)
    } else {
        None
    }
}

/// Finds the end of the placeholder that begins at index `i`.
pub fn hole_at(e: &Vec<char>, i: usize) -> (r: Option<usize>)
    ensures
        match hole_end(e@, i as int) {
            Some(j) => r == Some(j as usize) && i + 3 <= j <= e.len(),
            None => r is None,
        },
{
    if i >= e.len() || e[i] != '{' {
        return None;
    }
    let j = scan_run(e, i + 1, CharClass::Word);
    if j > i + 1 && j < e.len() && e[j] == '}' {
        Some(j + 1)
    } else {
        None
    }
}

/// The capture group at which the placeholder `name` stands first, looking
/// through `placeholders` from index `from` on.
pub open spec fn position_of(
    placeholders: Seq<(Seq<char>, usize)>,
    name: Seq<char>,
    from: int,
) -> Option<usize>
    decreases placeholders.len() - from,
{
    if from < 0 || from >= placeholders.len() {
        None
    } else if placeholders[from].0 == name {
        Some(placeholders[from].1)
    } else {
        position_of(placeholders, name, from + 1)
    }
}

/// A header as far as it is compiled.
pub struct Header {
    /// The pattern so far.
    pub pattern: Seq<char>,
    /// The number of capture groups in it.
    pub groups: usize,
    /// Each placeholder name met so far, with the group it stood at first.
    pub placeholders: Seq<(Seq<char>, usize)>,
}

/// The pattern text for a placeholder: a group for one word where the name is
/// new, else a group that takes the text of the name's first group again.
pub open spec fn group_pattern(first: Option<usize>) -> Seq<char> {
    match first {
        Some(p) => "(\\"@ + decimal_digits((p + 1) as nat) + ")"@,
        None => "(\\w+)"@,
    }
}

/// Compiles the escaped header `e` from index `i` on: a placeholder becomes a
/// capture group, any other character stands for itself.
pub open spec fn compiled_from(e: Seq<char>, i: int, h: Header) -> Header
    decreases e.len() - i,
{
    if i < 0 || i >= e.len() {
        h
    } else {
        match hole_end(e, i) {
            Some(j) => {
                let name = e.subrange(i + 1, j - 1);
                let first = position_of(h.placeholders, name, 0);
                compiled_from(
                    e,
                    j,
                    Header {
                        pattern: h.pattern + group_pattern(first),
                        groups: (h.groups + 1) as usize,
                        placeholders: if first is Some {
                            h.placeholders
                        } else {
                            h.placeholders.push((name, h.groups))
                        },
                    },
                )
            },
            None => compiled_from(
                e,
                i + 1,
                Header {
                    pattern: h.pattern.push(e[i]),
                    groups: h.groups,
                    placeholders: h.placeholders,
                },
            ),
        }
    }
}

/// What a [`Macro`] stands for.
pub struct MacroView {
    /// The pattern that a line must match as a whole.
    pub pattern: Seq<char>,
    /// Each placeholder name with the capture group that holds its text, less
    /// one.
    pub placeholders: Seq<(Seq<char>, usize)>,
    /// The raw lines of the body.
    pub body: Seq<Seq<char>>,
}

/// The names and positions of a list of placeholders.
pub open spec fn placeholder_texts(list: Seq<(String, usize)>) -> Seq<(Seq<char>, usize)> {
    list.map_values(|p: (String, usize)| (p.0@, p.1))
}

/// The macro that the header `def` declares, with no body yet.
pub open spec fn spec_macro(def: Seq<char>) -> MacroView {
    let h = compiled_from(
        escaped(def),
        0,
        Header { pattern: "^"@, groups: 0, placeholders: Seq::empty() },
    );
    MacroView { pattern: h.pattern + "$"@, placeholders: h.placeholders, body: Seq::empty() }
}

/// A macro: the pattern of the lines that call it, its placeholders, and the
/// lines it expands into.
#[derive(Debug)]
pub struct Macro {
    /// The pattern that a calling line matches as a whole.
    pub pattern: String,
    /// Each placeholder name with the capture group that holds its text, less
    /// one, in the order in which the header names them first.
    pub replacements: Vec<(String, usize)>,
    /// The raw lines of the body.
    pub instructions: Vec<String>,
}

impl View for Macro {
    type V = MacroView;

    open spec fn view(&self) -> MacroView {
        MacroView {
            pattern: self.pattern@,
            placeholders: placeholder_texts(self.replacements@),
            body: texts(self.instructions@),
        }
    }
}

impl Macro {
    /// Compiles a macro header.
    pub fn parse(def: &str) -> (m: Self)
        ensures
            m@ == spec_macro(def@),
    {
        let chars = to_chars(def);
        Self::parse_chars(&chars)
    }

    /// Compiles a macro header given as characters.
    pub fn parse_chars(def: &Vec<char>) -> (m: Self)
        ensures
            m@ == spec_macro(def@),
    {
        let e = escape(def);
        let mut pattern: Vec<char> = Vec::new();
        pattern.push('^');
        let mut groups: usize = 0;
        let mut replacements: Vec<(String, usize)> = Vec::new();
        let ghost start = Header { pattern: "^"@, groups: 0, placeholders: Seq::empty() };
        proof {
            reveal_strlit("^");
            assert(pattern@ =~= "^"@);
            assert(placeholder_texts(replacements@) =~= Seq::empty());
        }
        let mut i: usize = 0;
        while i < e.len()
            invariant
                i <= e.len(),
                groups <= i,
                forall|k: int|
                    0 <= k < replacements.len() ==> (#[trigger] replacements[k]).1 < groups,
                compiled_from(
                    e@,
                    i as int,
                    Header {
                        pattern: pattern@,
                        groups,
                        placeholders: placeholder_texts(replacements@),
                    },
                ) == compiled_from(e@, 0, start),
            decreases e.len() - i,
        {
            let ghost h = Header {
                pattern: pattern@,
                groups,
                placeholders: placeholder_texts(replacements@),
            };
            match hole_at(&e, i) {
                Some(j) => {
                    let name = slice(&e, i + 1, j - 1);
                    let first = find_placeholder(&replacements, &name);
                    match first {
                        Some(p) => {
                            proof {
                                lemma_position_of(placeholder_texts(replacements@), name@, 0);
                            }
                            push_str(&mut pattern, "(\\");
                            push_decimal(&mut pattern, p + 1);
                            push_str(&mut pattern, ")");
                        },
                        None => {
                            push_str(&mut pattern, "(\\w+)");
                            let ghost before = replacements@;
                            replacements.push((to_string(&name), groups));
                            assert(placeholder_texts(replacements@) =~= placeholder_texts(
                                before,
                            ).push((name@, groups)));
                        },
                    }
                    assert(pattern@ =~= h.pattern + group_pattern(first));
                    groups += 1;
                    i = j;
                },
                None => {
                    pattern.push(e[i]);
                    i += 1;
                },
            }
        }
        push_str(&mut pattern, "$");
        let m = Macro { pattern: to_string(&pattern), replacements, instructions: Vec::new() };
        assert(texts(m.instructions@) =~= Seq::empty());
        m
    }
}

/// A position that is found belongs to one of the placeholders.
pub proof fn lemma_position_of(placeholders: Seq<(Seq<char>, usize)>, name: Seq<char>, from: int)
    requires
        0 <= from,
    ensures
        position_of(placeholders, name, from) matches Some(p) ==> exists|k: int|
            from <= k < placeholders.len() && (#[trigger] placeholders[k]).0 == name
                && placeholders[k].1 == p,
    decreases placeholders.len() - from,
{
    if from < placeholders.len() && placeholders[from].0 != name {
        lemma_position_of(placeholders, name, from + 1);
    }
}

/// Looks a placeholder name up.
pub fn find_placeholder(list: &Vec<(String, usize)>, name: &Vec<char>) -> (r: Option<usize>)
    ensures
        r == position_of(placeholder_texts(list@), name@, 0),
{
    let mut k: usize = 0;
    while k < list.len()
        invariant
            k <= list.len(),
            position_of(placeholder_texts(list@), name@, 0) == position_of(
                placeholder_texts(list@),
                name@,
                k as int,
            ),
        decreases list.len() - k,
    {
        let known = to_chars(list[k].0.as_str());
        if same_text(&known, name) {
            return Some(list[k].1);
        }
        k += 1;
    }
    None
}

} // verus!
