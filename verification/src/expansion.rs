//! The expansion of a macro call: fresh labels and registers for the
//! automatic names of the body, the call's texts for the placeholders, and
//! the body's own macro calls expanded in turn.

use vstd::prelude::*;
use vstd::string::*;

use crate::assembler::{
    Assembly, AssemblyView, at_most, defined_label, failure, label_prefix, lemma_defined_label,
    Program,
};
use crate::error::{ParseError, ParseErrorView};
use crate::macros::{
    find_placeholder, group_texts, Macro, MacroView, match_pattern, MatchOutcome, MatchView,
    pattern_match, placeholder_texts, position_of,
};
use crate::program::{Instruction, Label, label_capture, parse_label_capture};
use crate::text::{
    CharClass, decimal_digits, lemma_run_end, push_decimal, replace, replaced, run_end, scan_run,
    slice, texts, to_chars, to_string, trim, trimmed,
};

verus! {

broadcast use {Label::lemma_with_key, Label::lemma_key_determines};

// =================================================================================================
// Automatic labels
// =================================================================================================

/// Where the automatic label `%<Group><Number>` that begins at index `i` of
/// `s` ends.
pub open spec fn auto_label_end(s: Seq<char>, i: int) -> Option<int> {
    let e = run_end(s, i + 2, CharClass::Digit);
    if 0 <= i && i + 2 < s.len() && s[i] == '%' && 'A' <= s[i + 1] && s[i + 1] <= 'E' && e > i
        + 2 {
        Some(e)
    } else {
        None
    }
}

/// The fresh label that the memo holds for the token with the given key,
/// looking from index `from` on.
pub open spec fn memo_label(memo: Seq<(usize, usize)>, key: usize, from: int) -> Option<usize>
    decreases memo.len() - from,
{
    if from < 0 || from >= memo.len() {
        None
    } else if memo[from].0 == key {
        Some(memo[from].1)
    } else {
        memo_label(memo, key, from + 1)
    }
}

/// A line whose automatic labels are being replaced.
pub struct AutoLabels {
    /// The line as far as it is rewritten.
    pub text: Seq<char>,
    /// The tokens met in this expansion, by key, each with the key of the
    /// label made for it.
    pub memo: Seq<(usize, usize)>,
    /// For each group, the highest label number in use.
    pub max_labels: Seq<usize>,
}

/// The line `s` from index `i` on with each automatic label replaced: a token
/// that this expansion has met before by the label made for it then, a new
/// one by the label of its group with the next number that is not in use.
pub open spec fn auto_labels_from(s: Seq<char>, i: int, st: AutoLabels, line_num: usize) -> Result<
    AutoLabels,
    ParseErrorView,
>
    decreases s.len() - i,
{
    if i < 0 || i >= s.len() {
        Ok(st)
    } else {
        match auto_label_end(s, i) {
            None => auto_labels_from(
                s,
                i + 1,
                AutoLabels { text: st.text.push(s[i]), memo: st.memo, max_labels: st.max_labels },
                line_num,
            ),
            Some(e) => {
                proof {
                    lemma_run_end(s, i + 2, CharClass::Digit);
                }
                match label_capture(s, i + 1, e) {
                    None => Err(failure("Invalid label name"@, line_num)),
                    Some((g, n)) => if !Label::fits(g as int, n as int) {
                        Err(failure("Invalid label name"@, line_num))
                    } else {
                        let token = Label::spec_new(g as int, n as int).key();
                        match memo_label(st.memo, token, 0) {
                            Some(known) => auto_labels_from(
                                s,
                                e,
                                AutoLabels {
                                    text: st.text + Label::with_key(known).text(),
                                    memo: st.memo,
                                    max_labels: st.max_labels,
                                },
                                line_num,
                            ),
                            None => if !Label::fits(g as int, st.max_labels[g as int] + 1) {
                                Err(failure("Too many labels"@, line_num))
                            } else {
                                let fresh = Label::spec_new(g as int, st.max_labels[g as int] + 1);
                                auto_labels_from(
                                    s,
                                    e,
                                    AutoLabels {
                                        text: st.text + fresh.text(),
                                        memo: st.memo.push((token, fresh.key())),
                                        max_labels: st.max_labels.update(
                                            g as int,
                                            (st.max_labels[g as int] + 1) as usize,
                                        ),
                                    },
                                    line_num,
                                )
                            },
                        }
                    },
                }
            },
        }
    }
}

/// Looks a token up in the memo.
pub fn find_made_label(memo: &Vec<(usize, usize)>, key: usize) -> (r: Option<usize>)
    ensures
        r == memo_label(memo@, key, 0),
{
    let mut k: usize = 0;
    while k < memo.len()
        invariant
            k <= memo.len(),
            memo_label(memo@, key, 0) == memo_label(memo@, key, k as int),
        decreases memo.len() - k,
    {
        if memo[k].0 == key {
            return Some(memo[k].1);
        }
        k += 1;
    }
    None
}

/// Replaces the automatic labels of a line.
pub fn replace_auto_labels(
    s: &Vec<char>,
    memo: Vec<(usize, usize)>,
    max_labels: [usize; 5],
    line_num: usize,
) -> (r: Result<(Vec<char>, Vec<(usize, usize)>, [usize; 5]), ParseError>)
    ensures
        match auto_labels_from(
            s@,
            0,
            AutoLabels { text: Seq::empty(), memo: memo@, max_labels: max_labels@ },
            line_num,
        ) {
            Ok(v) => r matches Ok(x) && x.0@ == v.text && x.1@ == v.memo && x.2@ == v.max_labels,
            Err(e) => r matches Err(x) && x@ == e,
        },
{
    let ghost start = AutoLabels { text: Seq::empty(), memo: memo@, max_labels: max_labels@ };
    let mut text: Vec<char> = Vec::new();
    let mut known = memo;
    let mut tops = max_labels;
    let mut i: usize = 0;
    while i < s.len()
        invariant
            i <= s.len(),
            auto_labels_from(
                s@,
                i as int,
                AutoLabels { text: text@, memo: known@, max_labels: tops@ },
                line_num,
            ) == auto_labels_from(s@, 0, start, line_num),
            start == (AutoLabels { text: Seq::empty(), memo: memo@, max_labels: max_labels@ }),
        decreases s.len() - i,
    {
        let ghost st = AutoLabels { text: text@, memo: known@, max_labels: tops@ };
        if s[i] == '%' && s.len() - i > 2 && s[i + 1] >= 'A' && s[i + 1] <= 'E' {
            let e = scan_run(s, i + 2, CharClass::Digit);
            if e > i + 2 {
                let (g, n) = match parse_label_capture(s, i + 1, e) {
                    Some(capture) => capture,
                    None => {
                        return Err(ParseError::new("Invalid label name", line_num));
                    },
                };
                if n > (usize::MAX - g) / 5 {
                    return Err(ParseError::new("Invalid label name", line_num));
                }
                let token = Label::new(g, n).key();
                let label = match find_made_label(&known, token) {
                    Some(made) => Label::from_key(made),
                    None => {
                        let top: usize = tops[g];
                        if top >= (usize::MAX - g) / 5 {
                            return Err(ParseError::new("Too many labels", line_num));
                        }
                        let fresh = Label::new(g, top + 1);
                        known.push((token, fresh.key()));
                        tops[g] = top + 1;
                        assert(tops@ =~= st.max_labels.update(g as int, (top + 1) as usize));
                        fresh
                    },
                };
                label.push_text(&mut text);
                i = e;
                continue ;
            }
        }
        text.push(s[i]);
        i += 1;
    }
    Ok((text, known, tops))
}

// =================================================================================================
// Placeholders
// =================================================================================================

/// The line `s` with the placeholders from index `k` on replaced, one after
/// the other, each by the text that the call's capture group holds for it.
/// `None` where a group is missing or took no part in the match.
pub open spec fn substituted(
    s: Seq<char>,
    placeholders: Seq<(Seq<char>, usize)>,
    groups: Seq<Option<Seq<char>>>,
    k: int,
) -> Option<Seq<char>>
    decreases placeholders.len() - k,
{
    if k < 0 || k >= placeholders.len() {
        Some(s)
    } else {
        let g = placeholders[k].1 + 1;
        if g < groups.len() && groups[g] is Some {
            substituted(replaced(s, placeholders[k].0, groups[g]->0), placeholders, groups, k + 1)
        } else {
            None
        }
    }
}

/// Replaces the placeholders of a line by the texts of the call.
pub fn substitute(
    s: &Vec<char>,
    placeholders: &Vec<(String, usize)>,
    groups: &Vec<Option<String>>,
) -> (r: Option<Vec<char>>)
    ensures
        match substituted(s@, placeholder_texts(placeholders@), group_texts(groups@), 0) {
            Some(t) => r matches Some(x) && x@ == t,
            None => r is None,
        },
{
    let mut text = slice(&s, 0, s.len());
    assert(text@ =~= s@);
    let mut k: usize = 0;
    while k < placeholders.len()
        invariant
            k <= placeholders.len(),
            substituted(text@, placeholder_texts(placeholders@), group_texts(groups@), k as int)
                == substituted(s@, placeholder_texts(placeholders@), group_texts(groups@), 0),
        decreases placeholders.len() - k,
    {
        let g: usize = placeholders[k].1;
        if groups.len() == 0 || g >= groups.len() - 1 {
            return None;
        }
        let name = to_chars(placeholders[k].0.as_str());
        match &groups[g + 1] {
            Some(captured) => {
                let with = to_chars(captured.as_str());
                text = replace(&text, &name, &with);
            },
            None => {
                return None;
            },
        }
        k += 1;
    }
    Some(text)
}

// =================================================================================================
// Automatic registers
// =================================================================================================

/// Where the automatic register `$name` that begins at index `i` of `s` ends:
/// the name is one or more word characters.
pub open spec fn auto_var_end(s: Seq<char>, i: int) -> Option<int> {
    let e = run_end(s, i + 1, CharClass::Word);
    if 0 <= i < s.len() && s[i] == '$' && e > i + 1 {
        Some(e)
    } else {
        None
    }
}

/// A line whose automatic registers are being replaced.
pub struct AutoVars {
    /// The line as far as it is rewritten.
    pub text: Seq<char>,
    /// The names met in this expansion, each with the index of the register
    /// made for it.
    pub memo: Seq<(Seq<char>, usize)>,
    /// The highest index of a temporary register in use.
    pub max_temp_var: usize,
}

/// The line `s` from index `i` on with each automatic register replaced: a
/// name that this expansion has met before by the register made for it then,
/// a new one by the temporary register with the next index that is not in
/// use.
pub open spec fn auto_vars_from(s: Seq<char>, i: int, st: AutoVars, line_num: usize) -> Result<
    AutoVars,
    ParseErrorView,
>
    decreases s.len() - i,
{
    if i < 0 || i >= s.len() {
        Ok(st)
    } else {
        match auto_var_end(s, i) {
            None => auto_vars_from(
                s,
                i + 1,
                AutoVars { text: st.text.push(s[i]), memo: st.memo, max_temp_var: st.max_temp_var },
                line_num,
            ),
            Some(e) => {
                proof {
                    lemma_run_end(s, i + 1, CharClass::Word);
                }
                let name = s.subrange(i + 1, e);
                match position_of(st.memo, name, 0) {
                    Some(known) => auto_vars_from(
                        s,
                        e,
                        AutoVars {
                            text: st.text.push('z') + decimal_digits(known as nat),
                            memo: st.memo,
                            max_temp_var: st.max_temp_var,
                        },
                        line_num,
                    ),
                    None => if st.max_temp_var >= usize::MAX {
                        Err(failure("Too many temporary variables"@, line_num))
                    } else {
                        let fresh = (st.max_temp_var + 1) as usize;
                        auto_vars_from(
                            s,
                            e,
                            AutoVars {
                                text: st.text.push('z') + decimal_digits(fresh as nat),
                                memo: st.memo.push((name, fresh)),
                                max_temp_var: fresh,
                            },
                            line_num,
                        )
                    },
                }
            },
        }
    }
}

/// Replaces the automatic registers of a line.
pub fn replace_auto_vars(
    s: &Vec<char>,
    memo: Vec<(String, usize)>,
    max_temp_var: usize,
    line_num: usize,
) -> (r: Result<(Vec<char>, Vec<(String, usize)>, usize), ParseError>)
    ensures
        match auto_vars_from(
            s@,
            0,
            AutoVars { text: Seq::empty(), memo: placeholder_texts(memo@), max_temp_var },
            line_num,
        ) {
            Ok(v) => r matches Ok(x) && x.0@ == v.text && placeholder_texts(x.1@) == v.memo && x.2
                == v.max_temp_var,
            Err(e) => r matches Err(x) && x@ == e,
        },
{
    let ghost start = AutoVars {
        text: Seq::empty(),
        memo: placeholder_texts(memo@),
        max_temp_var,
    };
    let mut text: Vec<char> = Vec::new();
    let mut known = memo;
    let mut top: usize = max_temp_var;
    let mut i: usize = 0;
    while i < s.len()
        invariant
            i <= s.len(),
            auto_vars_from(
                s@,
                i as int,
                AutoVars { text: text@, memo: placeholder_texts(known@), max_temp_var: top },
                line_num,
            ) == auto_vars_from(s@, 0, start, line_num),
            start == (AutoVars {
                text: Seq::empty(),
                memo: placeholder_texts(memo@),
                max_temp_var,
            }),
        decreases s.len() - i,
    {
        if s[i] == '$' {
            let e = scan_run(s, i + 1, CharClass::Word);
            if e > i + 1 {
                let name = slice(s, i + 1, e);
                let index = match find_placeholder(&known, &name) {
                    Some(made) => made,
                    None => {
                        if top == usize::MAX {
                            return Err(ParseError::new("Too many temporary variables", line_num));
                        }
                        top = top + 1;
                        let ghost before = known@;
                        known.push((to_string(&name), top));
                        assert(placeholder_texts(known@) =~= placeholder_texts(before).push(
                            (name@, top),
                        ));
                        top
                    },
                };
                text.push('z');
                push_decimal(&mut text, index);
                i = e;
                continue ;
            }
        }
        text.push(s[i]);
        i += 1;
    }
    Ok((text, known, top))
}

// =================================================================================================
// Expansion
// =================================================================================================

/// What a list of macros stands for.
pub open spec fn macro_views(macros: Seq<Macro>) -> Seq<MacroView> {
    macros.map_values(|m: Macro| m@)
}

/// The state of one expansion: the names it has made, and the assembly.
pub struct Expansion {
    /// The automatic labels met, each with the label made for it.
    pub labels: Seq<(usize, usize)>,
    /// The automatic registers met, each with the register made for it.
    pub vars: Seq<(Seq<char>, usize)>,
    /// What has been assembled.
    pub assembly: AssemblyView,
}

/// The assembly after the call of macro `m`, which captured `groups`, has
/// been expanded: the lines of the body, each in turn, with fresh names for
/// this one expansion.
pub open spec fn expanded(
    macros: Seq<MacroView>,
    m: int,
    groups: Seq<Option<Seq<char>>>,
    a: AssemblyView,
    line_num: usize,
    depth: nat,
) -> Result<AssemblyView, ParseErrorView>
    decreases depth, 3int, 0int,
{
    match expanded_lines(
        macros,
        m,
        groups,
        0,
        Expansion { labels: Seq::empty(), vars: Seq::empty(), assembly: a },
        line_num,
        depth,
    ) {
        Ok(st) => Ok(st.assembly),
        Err(e) => Err(e),
    }
}

/// The state of the expansion after the body lines from index `k` on.
pub open spec fn expanded_lines(
    macros: Seq<MacroView>,
    m: int,
    groups: Seq<Option<Seq<char>>>,
    k: int,
    st: Expansion,
    line_num: usize,
    depth: nat,
) -> Result<Expansion, ParseErrorView>
    decreases depth, 2int, macros[m].body.len() - k,
{
    if k < 0 || k >= macros[m].body.len() {
        Ok(st)
    } else {
        match expanded_line(macros, m, groups, macros[m].body[k], st, line_num, depth) {
            Ok(next) => expanded_lines(macros, m, groups, k + 1, next, line_num, depth),
            Err(e) => Err(e),
        }
    }
}

/// The state of the expansion after one body line: its automatic labels are
/// replaced, the label it may define is entered, its placeholders and then
/// its automatic registers are replaced, and what is left is assembled as an
/// instruction or as a macro call. A line that is neither is left out.
pub open spec fn expanded_line(
    macros: Seq<MacroView>,
    m: int,
    groups: Seq<Option<Seq<char>>>,
    line: Seq<char>,
    st: Expansion,
    line_num: usize,
    depth: nat,
) -> Result<Expansion, ParseErrorView>
    decreases depth, 1int, 0int,
{
    match auto_labels_from(
        line,
        0,
        AutoLabels { text: Seq::empty(), memo: st.labels, max_labels: st.assembly.max_labels },
        line_num,
    ) {
        Err(e) => Err(e),
        Ok(l) => match defined_label(
            l.text,
            AssemblyView { max_labels: l.max_labels, ..st.assembly },
            line_num,
        ) {
            Err(e) => Err(e),
            Ok((rest, a)) => match substituted(trim(rest), macros[m].placeholders, groups, 0) {
                None => Err(failure("Missing macro argument"@, line_num)),
                Some(call) => match auto_vars_from(
                    call,
                    0,
                    AutoVars { text: Seq::empty(), memo: st.vars, max_temp_var: a.max_temp_var },
                    line_num,
                ) {
                    Err(e) => Err(e),
                    Ok(v) => {
                        let b = AssemblyView { max_temp_var: v.max_temp_var, ..a };
                        match Instruction::spec_parse(v.text) {
                            Err(message) => Err(failure(message, line_num)),
                            Ok(Some(instruction)) => Ok(
                                Expansion {
                                    labels: l.memo,
                                    vars: v.memo,
                                    assembly: AssemblyView {
                                        instructions: b.instructions.push(instruction),
                                        ..b
                                    },
                                },
                            ),
                            Ok(None) => match dispatched(macros, v.text, 0, b, line_num, depth) {
                                Err(e) => Err(e),
                                Ok(Some(c)) => Ok(
                                    Expansion { labels: l.memo, vars: v.memo, assembly: c },
                                ),
                                Ok(None) => Ok(
                                    Expansion { labels: l.memo, vars: v.memo, assembly: b },
                                ),
                            },
                        }
                    },
                },
            },
        },
    }
}

/// What the outcome of matching a line against a macro's pattern asks for:
/// nothing where the line does not match, the expansion of the call with the
/// captured texts where it does, and an error where the pattern is invalid,
/// where the matcher gave up, or where a call at depth 0 would nest deeper
/// than is allowed.
pub open spec fn judged(outcome: MatchView, line_num: usize, depth: nat) -> Result<
    Option<Seq<Option<Seq<char>>>>,
    ParseErrorView,
> {
    match outcome {
        MatchView::Miss => Ok(None),
        MatchView::BadPattern => Err(failure("Invalid macro pattern"@, line_num)),
        MatchView::Failed => Err(failure("Pattern matching failed"@, line_num)),
        MatchView::Hit(groups) => if depth == 0 {
            Err(failure("Macro expansion nested too deeply"@, line_num))
        } else {
            Ok(Some(groups))
        },
    }
}

/// Says what the outcome of a match asks for.
pub fn judge(outcome: MatchOutcome, line_num: usize, depth: usize) -> (r: Result<
    Option<Vec<Option<String>>>,
    ParseError,
>)
    ensures
        match judged(outcome@, line_num, depth as nat) {
            Ok(Some(groups)) => r matches Ok(Some(x)) && group_texts(x@) == groups && depth > 0,
            Ok(None) => r matches Ok(None),
            Err(e) => r matches Err(x) && x@ == e,
        },
{
    match outcome {
        MatchOutcome::Miss => Ok(None),
        MatchOutcome::BadPattern => Err(ParseError::new("Invalid macro pattern", line_num)),
        MatchOutcome::Failed => Err(ParseError::new("Pattern matching failed", line_num)),
        MatchOutcome::Hit(groups) => {
            if depth == 0 {
                Err(ParseError::new("Macro expansion nested too deeply", line_num))
            } else {
                Ok(Some(groups))
            }
        },
    }
}

/// The assembly after the line `text` has been expanded as a call of the
/// first macro from index `k` on whose pattern it matches; `Ok(None)` where it
/// matches none. A call at depth 0 is refused.
pub open spec fn dispatched(
    macros: Seq<MacroView>,
    text: Seq<char>,
    k: int,
    a: AssemblyView,
    line_num: usize,
    depth: nat,
) -> Result<Option<AssemblyView>, ParseErrorView>
    decreases depth, 0int, macros.len() - k,
{
    if k < 0 || k >= macros.len() {
        Ok(None)
    } else {
        match judged(pattern_match(macros[k].pattern, text), line_num, depth) {
            Err(e) => Err(e),
            Ok(None) => dispatched(macros, text, k + 1, a, line_num, depth),
            Ok(Some(groups)) => match expanded(macros, k, groups, a, line_num, (depth - 1) as nat) {
                Ok(b) => Ok(Some(b)),
                Err(e) => Err(e),
            },
        }
    }
}

impl Program {
    /// Expands the call of macro `m` that captured `groups`.
    pub fn expand_macro(
        macros: &Vec<Macro>,
        m: usize,
        groups: &Vec<Option<String>>,
        assembly: Assembly,
        line_num: usize,
        depth: usize,
    ) -> (r: Result<Assembly, ParseError>)
        requires
            m < macros.len(),
            assembly@.well_formed(),
        ensures
            match expanded(
                macro_views(macros@),
                m as int,
                group_texts(groups@),
                assembly@,
                line_num,
                depth as nat,
            ) {
                Ok(a) => r matches Ok(x) && x@ == a && a.well_formed(),
                Err(e) => r matches Err(x) && x@ == e,
            },
        decreases depth, 3int,
    {
        let ghost start = Expansion {
            labels: Seq::empty(),
            vars: Seq::empty(),
            assembly: assembly@,
        };
        let ghost views = macro_views(macros@);
        let mut labels: Vec<(usize, usize)> = Vec::new();
        let mut vars: Vec<(String, usize)> = Vec::new();
        let mut current = assembly;
        assert(placeholder_texts(vars@) =~= Seq::empty());
        let body = &macros[m].instructions;
        assert(views[m as int].body == texts(body@));
        let mut k: usize = 0;
        while k < body.len()
            invariant
                k <= body.len(),
                m < macros.len(),
                views == macro_views(macros@),
                views[m as int].body == texts(body@),
                current@.well_formed(),
                start == (Expansion {
                    labels: Seq::empty(),
                    vars: Seq::empty(),
                    assembly: assembly@,
                }),
                expanded_lines(
                    views,
                    m as int,
                    group_texts(groups@),
                    k as int,
                    Expansion {
                        labels: labels@,
                        vars: placeholder_texts(vars@),
                        assembly: current@,
                    },
                    line_num,
                    depth as nat,
                ) == expanded_lines(
                    views,
                    m as int,
                    group_texts(groups@),
                    0,
                    start,
                    line_num,
                    depth as nat,
                ),
            decreases body.len() - k,
        {
            let line = to_chars(body[k].as_str());
            assert(texts(body@)[k as int] == line@);
            let next = expand_line(
                macros,
                m,
                groups,
                &line,
                labels,
                vars,
                current,
                line_num,
                depth,
            )?;
            labels = next.0;
            vars = next.1;
            current = next.2;
            k += 1;
        }
        Ok(current)
    }
}

/// Expands one line of the body of macro `m`.
pub fn expand_line(
    macros: &Vec<Macro>,
    m: usize,
    groups: &Vec<Option<String>>,
    line: &Vec<char>,
    labels: Vec<(usize, usize)>,
    vars: Vec<(String, usize)>,
    assembly: Assembly,
    line_num: usize,
    depth: usize,
) -> (r: Result<(Vec<(usize, usize)>, Vec<(String, usize)>, Assembly), ParseError>)
    requires
        m < macros.len(),
        assembly@.well_formed(),
    ensures
        match expanded_line(
            macro_views(macros@),
            m as int,
            group_texts(groups@),
            line@,
            Expansion { labels: labels@, vars: placeholder_texts(vars@), assembly: assembly@ },
            line_num,
            depth as nat,
        ) {
            Ok(st) => r matches Ok(x) && x.0@ == st.labels && placeholder_texts(x.1@) == st.vars
                && x.2@ == st.assembly && st.assembly.well_formed(),
            Err(e) => r matches Err(x) && x@ == e,
        },
    decreases depth, 1int,
{
    let mut current = assembly;
    let relabelled = replace_auto_labels(line, labels, current.max_labels, line_num)?;
    current.max_labels = relabelled.2;
    let labels = relabelled.1;
    let defined = Program::find_label(&relabelled.0, current, line_num)?;
    let mut current = defined.1;
    let call = match substitute(&trimmed(&defined.0), &macros[m].replacements, groups) {
        Some(call) => call,
        None => {
            return Err(ParseError::new("Missing macro argument", line_num));
        },
    };
    let renamed = replace_auto_vars(&call, vars, current.max_temp_var, line_num)?;
    current.max_temp_var = renamed.2;
    let vars = renamed.1;
    match Instruction::parse_chars(&renamed.0, line_num)? {
        Some(instruction) => {
            current.instructions.push(instruction);
            Ok((labels, vars, current))
        },
        None => {
            let done = dispatch(macros, &renamed.0, current, line_num, depth)?;
            Ok((labels, vars, done.1))
        },
    }
}

/// Expands a line as a call of the first macro whose pattern it matches, and
/// says whether there was one.
pub fn dispatch(
    macros: &Vec<Macro>,
    text: &Vec<char>,
    assembly: Assembly,
    line_num: usize,
    depth: usize,
) -> (r: Result<(bool, Assembly), ParseError>)
    requires
        assembly@.well_formed(),
    ensures
        match dispatched(macro_views(macros@), text@, 0, assembly@, line_num, depth as nat) {
            Ok(Some(a)) => r matches Ok(x) && x.0 && x.1@ == a && a.well_formed(),
            Ok(None) => r matches Ok(x) && !x.0 && x.1@ == assembly@,
            Err(e) => r matches Err(x) && x@ == e,
        },
    decreases depth, 0int,
{
    let line = to_string(text);
    let ghost views = macro_views(macros@);
    let mut k: usize = 0;
    while k < macros.len()
        invariant
            k <= macros.len(),
            line@ == text@,
            views == macro_views(macros@),
            assembly@.well_formed(),
            dispatched(views, text@, k as int, assembly@, line_num, depth as nat) == dispatched(
                views,
                text@,
                0,
                assembly@,
                line_num,
                depth as nat,
            ),
        decreases macros.len() - k,
    {
        assert(views[k as int] == macros[k as int]@);
        let outcome = match_pattern(macros[k].pattern.as_str(), line.as_str());
        match judge(outcome, line_num, depth)? {
            Some(groups) => {
                let done = Program::expand_macro(
                    macros,
                    k,
                    &groups,
                    assembly,
                    line_num,
                    depth - 1,
                )?;
                return Ok((true, done));
            },
            None => {},
        }
        k += 1;
    }
    Ok((false, assembly))
}

// =================================================================================================
// Fresh names
// =================================================================================================

/// Whether the label with the given key has a number above the counter of
/// its group in `lo` and not above the one in `hi`: it was made while the
/// counters rose from `lo` to `hi`.
pub open spec fn fresh_between(key: usize, lo: Seq<usize>, hi: Seq<usize>) -> bool {
    let l = Label::with_key(key);
    lo[l.group()] < l.number() <= hi[l.group()]
}

/// Whether the labels that a memo holds were all made while the counters rose
/// from `lo` to `hi`, and no two of them are the same.
pub open spec fn labels_made_within(
    memo: Seq<(usize, usize)>,
    lo: Seq<usize>,
    hi: Seq<usize>,
) -> bool {
    &&& forall|i: int| 0 <= i < memo.len() ==> fresh_between((#[trigger] memo[i]).1, lo, hi)
    &&& forall|i: int, j: int|
        0 <= i < j < memo.len() ==> (#[trigger] memo[i]).1 != (#[trigger] memo[j]).1
}

/// Whether the registers that a memo holds all have an index above `lo` and
/// not above `hi`, and no two of them are the same.
pub open spec fn vars_made_within(memo: Seq<(Seq<char>, usize)>, lo: usize, hi: usize) -> bool {
    &&& forall|i: int| 0 <= i < memo.len() ==> lo < (#[trigger] memo[i]).1 <= hi
    &&& forall|i: int, j: int|
        0 <= i < j < memo.len() ==> (#[trigger] memo[i]).1 != (#[trigger] memo[j]).1
}

/// A memo of labels made while the counters rose from `lo` to `hi` stays one
/// when the next label of a group is made and entered for a token: the new
/// label is above the counter of its group, and so unlike every label of the
/// memo.
pub proof fn lemma_one_more_label(
    memo: Seq<(usize, usize)>,
    lo: Seq<usize>,
    hi: Seq<usize>,
    group: int,
    token: usize,
)
    requires
        hi.len() == 5,
        0 <= group < 5,
        at_most(lo, hi),
        labels_made_within(memo, lo, hi),
        Label::fits(group, hi[group] + 1),
    ensures
        Label::spec_new(group, hi[group] + 1).group() == group,
        Label::spec_new(group, hi[group] + 1).number() == hi[group] + 1,
        at_most(hi, hi.update(group, (hi[group] + 1) as usize)),
        at_most(lo, hi.update(group, (hi[group] + 1) as usize)),
        labels_made_within(
            memo.push((token, Label::spec_new(group, hi[group] + 1).key())),
            lo,
            hi.update(group, (hi[group] + 1) as usize),
        ),
{
    let fresh = Label::spec_new(group, hi[group] + 1);
    let next = memo.push((token, fresh.key()));
    let higher = hi.update(group, (hi[group] + 1) as usize);
    assert(fresh.group() == group && fresh.number() == hi[group] + 1);
    assert forall|a: int| 0 <= a < next.len() implies fresh_between(
        (#[trigger] next[a]).1,
        lo,
        higher,
    ) by {
        if a < memo.len() {
            assert(fresh_between(memo[a].1, lo, hi));
        }
    }
    assert forall|a: int, b: int| 0 <= a < b < next.len() implies (#[trigger] next[a]).1 != (
    #[trigger] next[b]).1 by {
        if b == memo.len() {
            assert(fresh_between(memo[a].1, lo, hi));
        } else {
            assert(memo[a].1 != memo[b].1);
        }
    }
}

/// A label that the memo holds for a token is one of its entries.
pub proof fn lemma_memo_label(memo: Seq<(usize, usize)>, key: usize, from: int)
    requires
        0 <= from,
    ensures
        memo_label(memo, key, from) matches Some(made) ==> exists|k: int|
            from <= k < memo.len() && (#[trigger] memo[k]).1 == made,
    decreases memo.len() - from,
{
    if from < memo.len() && memo[from].0 != key {
        lemma_memo_label(memo, key, from + 1);
    }
}

/// Replacing the automatic labels of a line only raises the counters, and
/// each label it makes is new: above the counter of its group, and so unlike
/// every label made before.
pub proof fn lemma_auto_labels(
    s: Seq<char>,
    i: int,
    st: AutoLabels,
    line_num: usize,
    lo: Seq<usize>,
)
    requires
        st.max_labels.len() == 5,
        at_most(lo, st.max_labels),
        labels_made_within(st.memo, lo, st.max_labels),
    ensures
        auto_labels_from(s, i, st, line_num) matches Ok(r) ==> {
            &&& at_most(st.max_labels, r.max_labels)
            &&& labels_made_within(r.memo, lo, r.max_labels)
        },
    decreases s.len() - i,
{
    if 0 <= i < s.len() {
        match auto_label_end(s, i) {
            None => {
                lemma_auto_labels(
                    s,
                    i + 1,
                    AutoLabels {
                        text: st.text.push(s[i]),
                        memo: st.memo,
                        max_labels: st.max_labels,
                    },
                    line_num,
                    lo,
                );
            },
            Some(e) => {
                lemma_run_end(s, i + 2, CharClass::Digit);
                if let Some((g, n)) = label_capture(s, i + 1, e) {
                    if Label::fits(g as int, n as int) {
                        let token = Label::spec_new(g as int, n as int).key();
                        match memo_label(st.memo, token, 0) {
                            Some(known) => {
                                lemma_auto_labels(
                                    s,
                                    e,
                                    AutoLabels {
                                        text: st.text + Label::with_key(known).text(),
                                        memo: st.memo,
                                        max_labels: st.max_labels,
                                    },
                                    line_num,
                                    lo,
                                );
                            },
                            None => {
                                let top = st.max_labels[g as int];
                                if Label::fits(g as int, top + 1) {
                                    let fresh = Label::spec_new(g as int, top + 1);
                                    let next = AutoLabels {
                                        text: st.text + fresh.text(),
                                        memo: st.memo.push((token, fresh.key())),
                                        max_labels: st.max_labels.update(
                                            g as int,
                                            (top + 1) as usize,
                                        ),
                                    };
                                    lemma_one_more_label(
                                        st.memo,
                                        lo,
                                        st.max_labels,
                                        g as int,
                                        token,
                                    );
                                    lemma_auto_labels(s, e, next, line_num, lo);
                                }
                            },
                        }
                    }
                }
            },
        }
    }
}

/// Replacing the automatic registers of a line only raises the counter, and
/// each register it makes is new: above the counter, and so unlike every
/// register made before.
pub proof fn lemma_auto_vars(s: Seq<char>, i: int, st: AutoVars, line_num: usize, lo: usize)
    requires
        lo <= st.max_temp_var,
        vars_made_within(st.memo, lo, st.max_temp_var),
    ensures
        auto_vars_from(s, i, st, line_num) matches Ok(r) ==> {
            &&& st.max_temp_var <= r.max_temp_var
            &&& vars_made_within(r.memo, lo, r.max_temp_var)
        },
    decreases s.len() - i,
{
    if 0 <= i < s.len() {
        match auto_var_end(s, i) {
            None => {
                lemma_auto_vars(
                    s,
                    i + 1,
                    AutoVars {
                        text: st.text.push(s[i]),
                        memo: st.memo,
                        max_temp_var: st.max_temp_var,
                    },
                    line_num,
                    lo,
                );
            },
            Some(e) => {
                lemma_run_end(s, i + 1, CharClass::Word);
                let name = s.subrange(i + 1, e);
                match position_of(st.memo, name, 0) {
                    Some(known) => {
                        lemma_auto_vars(
                            s,
                            e,
                            AutoVars {
                                text: st.text.push('z') + decimal_digits(known as nat),
                                memo: st.memo,
                                max_temp_var: st.max_temp_var,
                            },
                            line_num,
                            lo,
                        );
                    },
                    None => {
                        if st.max_temp_var < usize::MAX {
                            let fresh = (st.max_temp_var + 1) as usize;
                            let next = AutoVars {
                                text: st.text.push('z') + decimal_digits(fresh as nat),
                                memo: st.memo.push((name, fresh)),
                                max_temp_var: fresh,
                            };
                            assert forall|a: int| 0 <= a < next.memo.len() implies lo < (
                            #[trigger] next.memo[a]).1 <= fresh by {
                                if a < st.memo.len() {
                                    assert(st.memo[a].1 <= st.max_temp_var);
                                }
                            }
                            assert forall|a: int, b: int|
                                0 <= a < b < next.memo.len() implies (#[trigger] next.memo[a]).1
                                != (#[trigger] next.memo[b]).1 by {
                                if b == st.memo.len() {
                                    assert(st.memo[a].1 <= st.max_temp_var);
                                } else {
                                    assert(st.memo[a].1 != st.memo[b].1);
                                }
                            }
                            lemma_auto_vars(s, e, next, line_num, lo);
                        }
                    },
                }
            },
        }
    }
}

/// Whether an expansion in the state `st` has made its names since the
/// counters stood at `lo` and `lo_var`.
pub open spec fn names_made_within(st: Expansion, lo: Seq<usize>, lo_var: usize) -> bool {
    &&& st.assembly.max_labels.len() == 5
    &&& at_most(lo, st.assembly.max_labels)
    &&& lo_var <= st.assembly.max_temp_var
    &&& labels_made_within(st.labels, lo, st.assembly.max_labels)
    &&& vars_made_within(st.vars, lo_var, st.assembly.max_temp_var)
}

/// The expansion of a call only adds to the assembly.
pub proof fn lemma_expanded(
    macros: Seq<MacroView>,
    m: int,
    groups: Seq<Option<Seq<char>>>,
    a: AssemblyView,
    line_num: usize,
    depth: nat,
)
    requires
        a.max_labels.len() == 5,
    ensures
        expanded(macros, m, groups, a, line_num, depth) matches Ok(b) ==> a.grows_to(b),
    decreases depth, 3int, 0int,
{
    lemma_expanded_lines(
        macros,
        m,
        groups,
        0,
        Expansion { labels: Seq::empty(), vars: Seq::empty(), assembly: a },
        line_num,
        depth,
        a.max_labels,
        a.max_temp_var,
    );
}

/// The lines of a body only add to the assembly, and the names that the
/// expansion makes are new, each of them.
pub proof fn lemma_expanded_lines(
    macros: Seq<MacroView>,
    m: int,
    groups: Seq<Option<Seq<char>>>,
    k: int,
    st: Expansion,
    line_num: usize,
    depth: nat,
    lo: Seq<usize>,
    lo_var: usize,
)
    requires
        names_made_within(st, lo, lo_var),
    ensures
        expanded_lines(macros, m, groups, k, st, line_num, depth) matches Ok(r) ==> {
            &&& st.assembly.grows_to(r.assembly)
            &&& names_made_within(r, lo, lo_var)
        },
    decreases depth, 2int, macros[m].body.len() - k,
{
    if 0 <= k < macros[m].body.len() {
        lemma_expanded_line(macros, m, groups, macros[m].body[k], st, line_num, depth, lo, lo_var);
        if let Ok(next) = expanded_line(macros, m, groups, macros[m].body[k], st, line_num, depth) {
            lemma_expanded_lines(macros, m, groups, k + 1, next, line_num, depth, lo, lo_var);
        }
    }
}

/// One line of a body only adds to the assembly, and the names that it makes
/// are new, each of them.
pub proof fn lemma_expanded_line(
    macros: Seq<MacroView>,
    m: int,
    groups: Seq<Option<Seq<char>>>,
    line: Seq<char>,
    st: Expansion,
    line_num: usize,
    depth: nat,
    lo: Seq<usize>,
    lo_var: usize,
)
    requires
        names_made_within(st, lo, lo_var),
    ensures
        expanded_line(macros, m, groups, line, st, line_num, depth) matches Ok(r) ==> {
            &&& st.assembly.grows_to(r.assembly)
            &&& names_made_within(r, lo, lo_var)
        },
    decreases depth, 1int, 0int,
{
    let start = AutoLabels {
        text: Seq::empty(),
        memo: st.labels,
        max_labels: st.assembly.max_labels,
    };
    lemma_auto_labels(line, 0, start, line_num, lo);
    if let Ok(l) = auto_labels_from(line, 0, start, line_num) {
        let relabelled = AssemblyView { max_labels: l.max_labels, ..st.assembly };
        lemma_defined_label(l.text, relabelled, line_num);
        if let Ok((rest, a)) = defined_label(l.text, relabelled, line_num) {
            if let Some(call) = substituted(trim(rest), macros[m].placeholders, groups, 0) {
                let begin = AutoVars {
                    text: Seq::empty(),
                    memo: st.vars,
                    max_temp_var: a.max_temp_var,
                };
                lemma_auto_vars(call, 0, begin, line_num, lo_var);
                if let Ok(v) = auto_vars_from(call, 0, begin, line_num) {
                    let b = AssemblyView { max_temp_var: v.max_temp_var, ..a };
                    assert(st.assembly.grows_to(b));
                    if let Ok(None) = Instruction::spec_parse(v.text) {
                        lemma_dispatched(macros, v.text, 0, b, line_num, depth);
                        if let Ok(Some(c)) = dispatched(macros, v.text, 0, b, line_num, depth) {
                            assert(st.assembly.grows_to(c));
                            lemma_labels_stay_within(l.memo, lo, b.max_labels, c.max_labels);
                            lemma_vars_stay_within(v.memo, lo_var, b.max_temp_var, c.max_temp_var);
                        }
                    }
                }
            }
        }
    }
}

/// Labels made while the counters rose to `hi` were made while they rose to
/// anything above `hi`.
pub proof fn lemma_labels_stay_within(
    memo: Seq<(usize, usize)>,
    lo: Seq<usize>,
    hi: Seq<usize>,
    higher: Seq<usize>,
)
    requires
        hi.len() == 5,
        labels_made_within(memo, lo, hi),
        at_most(hi, higher),
    ensures
        labels_made_within(memo, lo, higher),
{
    assert forall|i: int| 0 <= i < memo.len() implies fresh_between(
        (#[trigger] memo[i]).1,
        lo,
        higher,
    ) by {
        assert(fresh_between(memo[i].1, lo, hi));
    }
}

/// Registers made while the counter rose to `hi` were made while it rose to
/// anything above `hi`.
pub proof fn lemma_vars_stay_within(
    memo: Seq<(Seq<char>, usize)>,
    lo: usize,
    hi: usize,
    higher: usize,
)
    requires
        vars_made_within(memo, lo, hi),
        hi <= higher,
    ensures
        vars_made_within(memo, lo, higher),
{
}

/// A line that is expanded as a macro call only adds to the assembly.
pub proof fn lemma_dispatched(
    macros: Seq<MacroView>,
    text: Seq<char>,
    k: int,
    a: AssemblyView,
    line_num: usize,
    depth: nat,
)
    requires
        a.max_labels.len() == 5,
    ensures
        dispatched(macros, text, k, a, line_num, depth) matches Ok(Some(b)) ==> a.grows_to(b),
    decreases depth, 0int, macros.len() - k,
{
    if 0 <= k < macros.len() {
        match judged(pattern_match(macros[k].pattern, text), line_num, depth) {
            Err(e) => {},
            Ok(None) => {
                lemma_dispatched(macros, text, k + 1, a, line_num, depth);
            },
            Ok(Some(groups)) => {
                lemma_expanded(macros, k, groups, a, line_num, (depth - 1) as nat);
            },
        }
    }
}

/// An expansion makes no label that was made before it began: where labels
/// were made while the counters rose to `hi`, and an expansion begins from
/// counters that are not lower, each label that the expansion makes differs
/// from each of them. So the expansion of a call in a body shares no label
/// with the expansion around it.
pub proof fn lemma_expansion_makes_new_labels(
    made: Seq<(usize, usize)>,
    lo: Seq<usize>,
    hi: Seq<usize>,
    macros: Seq<MacroView>,
    m: int,
    groups: Seq<Option<Seq<char>>>,
    b: AssemblyView,
    line_num: usize,
    depth: nat,
)
    requires
        hi.len() == 5,
        labels_made_within(made, lo, hi),
        at_most(hi, b.max_labels),
        expanded_lines(
            macros,
            m,
            groups,
            0,
            Expansion { labels: Seq::empty(), vars: Seq::empty(), assembly: b },
            line_num,
            depth,
        ) is Ok,
    ensures
        ({
            let q = expanded_lines(
                macros,
                m,
                groups,
                0,
                Expansion { labels: Seq::empty(), vars: Seq::empty(), assembly: b },
                line_num,
                depth,
            )->Ok_0;
            forall|i: int, j: int|
                0 <= i < made.len() && 0 <= j < q.labels.len() ==> (#[trigger] made[i]).1 != (
                #[trigger] q.labels[j]).1
        }),
{
    let then = Expansion { labels: Seq::empty(), vars: Seq::empty(), assembly: b };
    lemma_expanded_lines(macros, m, groups, 0, then, line_num, depth, b.max_labels, b.max_temp_var);
    let q = expanded_lines(macros, m, groups, 0, then, line_num, depth)->Ok_0;
    assert forall|i: int, j: int|
        0 <= i < made.len() && 0 <= j < q.labels.len() implies (#[trigger] made[i]).1 != (
    #[trigger] q.labels[j]).1 by {
        assert(fresh_between(made[i].1, lo, hi));
        assert(fresh_between(q.labels[j].1, b.max_labels, q.assembly.max_labels));
    }
}

/// Two expansions share no label that they made: where one expansion has run
/// and another begins from counters that are not lower than the first left
/// them, each label that the second makes differs from each that the first
/// made, whatever automatic labels the two bodies name. Nor does one
/// expansion make the same label twice.
pub proof fn lemma_expansions_share_no_label(
    macros: Seq<MacroView>,
    first: int,
    first_groups: Seq<Option<Seq<char>>>,
    a: AssemblyView,
    first_line: usize,
    first_depth: nat,
    second: int,
    second_groups: Seq<Option<Seq<char>>>,
    b: AssemblyView,
    second_line: usize,
    second_depth: nat,
)
    requires
        a.max_labels.len() == 5,
        expanded_lines(
            macros,
            first,
            first_groups,
            0,
            Expansion { labels: Seq::empty(), vars: Seq::empty(), assembly: a },
            first_line,
            first_depth,
        ) matches Ok(r) && r.assembly.counters_le(b),
        expanded_lines(
            macros,
            second,
            second_groups,
            0,
            Expansion { labels: Seq::empty(), vars: Seq::empty(), assembly: b },
            second_line,
            second_depth,
        ) is Ok,
    ensures
        ({
            let r = expanded_lines(
                macros,
                first,
                first_groups,
                0,
                Expansion { labels: Seq::empty(), vars: Seq::empty(), assembly: a },
                first_line,
                first_depth,
            )->Ok_0;
            let q = expanded_lines(
                macros,
                second,
                second_groups,
                0,
                Expansion { labels: Seq::empty(), vars: Seq::empty(), assembly: b },
                second_line,
                second_depth,
            )->Ok_0;
            &&& forall|i: int, j: int|
                0 <= i < r.labels.len() && 0 <= j < q.labels.len() ==> (#[trigger] r.labels[i]).1
                    != (#[trigger] q.labels[j]).1
            &&& forall|i: int, j: int|
                0 <= i < j < r.labels.len() ==> (#[trigger] r.labels[i]).1 != (
                #[trigger] r.labels[j]).1
            &&& forall|i: int, j: int|
                0 <= i < r.vars.len() && 0 <= j < q.vars.len() ==> (#[trigger] r.vars[i]).1 != (
                #[trigger] q.vars[j]).1
            &&& forall|i: int, j: int|
                0 <= i < j < r.vars.len() ==> (#[trigger] r.vars[i]).1 != (#[trigger] r.vars[j]).1
        }),
{
    let from = Expansion { labels: Seq::empty(), vars: Seq::empty(), assembly: a };
    let then = Expansion { labels: Seq::empty(), vars: Seq::empty(), assembly: b };
    lemma_expanded_lines(
        macros,
        first,
        first_groups,
        0,
        from,
        first_line,
        first_depth,
        a.max_labels,
        a.max_temp_var,
    );
    lemma_expanded_lines(
        macros,
        second,
        second_groups,
        0,
        then,
        second_line,
        second_depth,
        b.max_labels,
        b.max_temp_var,
    );
    let r = expanded_lines(macros, first, first_groups, 0, from, first_line, first_depth)->Ok_0;
    let q = expanded_lines(macros, second, second_groups, 0, then, second_line, second_depth)->Ok_0;
    assert forall|i: int, j: int|
        0 <= i < r.labels.len() && 0 <= j < q.labels.len() implies (#[trigger] r.labels[i]).1 != (
    #[trigger] q.labels[j]).1 by {
        assert(fresh_between(r.labels[i].1, a.max_labels, r.assembly.max_labels));
        assert(fresh_between(q.labels[j].1, b.max_labels, q.assembly.max_labels));
    }
    assert forall|i: int, j: int|
        0 <= i < r.vars.len() && 0 <= j < q.vars.len() implies (#[trigger] r.vars[i]).1 != (
    #[trigger] q.vars[j]).1 by {
        assert(r.vars[i].1 <= r.assembly.max_temp_var);
        assert(b.max_temp_var < q.vars[j].1);
    }
}

// =================================================================================================
// Labels that a body defines
// =================================================================================================

/// A line that writes no `%` holds no automatic label and stays as it is.
pub proof fn lemma_no_auto_labels(s: Seq<char>, i: int, st: AutoLabels, line_num: usize)
    requires
        0 <= i <= s.len(),
        forall|k: int| i <= k < s.len() ==> s[k] != '%',
    ensures
        auto_labels_from(s, i, st, line_num) == Ok::<AutoLabels, ParseErrorView>(
            AutoLabels {
                text: st.text + s.subrange(i, s.len() as int),
                memo: st.memo,
                max_labels: st.max_labels,
            },
        ),
    decreases s.len() - i,
{
    if i < s.len() {
        let next = AutoLabels {
            text: st.text.push(s[i]),
            memo: st.memo,
            max_labels: st.max_labels,
        };
        lemma_no_auto_labels(s, i + 1, next, line_num);
        assert(next.text + s.subrange(i + 1, s.len() as int) =~= st.text + s.subrange(
            i,
            s.len() as int,
        ));
    } else {
        assert(st.text + s.subrange(i, s.len() as int) =~= st.text);
    }
}

/// A body line that defines a label that is defined already ends the
/// expansion with a redefinition error at the line of the call: where the
/// line, with its automatic labels replaced, begins with the definition of a
/// label that the table holds, nothing of the line is assembled.
pub proof fn lemma_body_redefines(
    macros: Seq<MacroView>,
    m: int,
    groups: Seq<Option<Seq<char>>>,
    line: Seq<char>,
    st: Expansion,
    line_num: usize,
    depth: nat,
    l: Label,
)
    requires
        st.assembly.labels.contains_key(l.key()),
        auto_labels_from(
            line,
            0,
            AutoLabels { text: Seq::empty(), memo: st.labels, max_labels: st.assembly.max_labels },
            line_num,
        ) matches Ok(r) && label_prefix(r.text) matches Some(j) && Label::spec_parse(
            r.text.subrange(1, j),
        ) == Some(l),
    ensures
        expanded_line(macros, m, groups, line, st, line_num, depth) == Err::<
            Expansion,
            ParseErrorView,
        >(failure("Redefined label "@ + l.text(), line_num)),
{
}

/// A body line with a label of its own, written without `%`, that is defined
/// already, as it is where the same macro was expanded before, ends the
/// expansion with a redefinition error, whatever the state of the expansion:
/// the lines of the body from that line on give the error, and no program.
pub proof fn lemma_literal_label_redefined(
    macros: Seq<MacroView>,
    m: int,
    groups: Seq<Option<Seq<char>>>,
    k: int,
    st: Expansion,
    line_num: usize,
    depth: nat,
    l: Label,
)
    requires
        0 <= k < macros[m].body.len(),
        forall|p: int| 0 <= p < macros[m].body[k].len() ==> macros[m].body[k][p] != '%',
        label_prefix(macros[m].body[k]) matches Some(j) && Label::spec_parse(
            macros[m].body[k].subrange(1, j),
        ) == Some(l),
        st.assembly.labels.contains_key(l.key()),
    ensures
        expanded_lines(macros, m, groups, k, st, line_num, depth) == Err::<
            Expansion,
            ParseErrorView,
        >(failure("Redefined label "@ + l.text(), line_num)),
{
    let line = macros[m].body[k];
    let start = AutoLabels {
        text: Seq::empty(),
        memo: st.labels,
        max_labels: st.assembly.max_labels,
    };
    lemma_no_auto_labels(line, 0, start, line_num);
    assert(start.text + line.subrange(0, line.len() as int) =~= line);
    lemma_body_redefines(macros, m, groups, line, st, line_num, depth, l);
}

} // verus!
