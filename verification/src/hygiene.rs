//! Why a label that an expansion makes is never one that is defined already:
//! the first pass raises the counters above every label that the source
//! writes, and the second pass defines no label above the counters. And where
//! the labels of an expansion lead: to instructions of that expansion.

use vstd::prelude::*;

use crate::assembler::{
    assembled, assembled_from, assembled_line, AssemblyView, at_most, Counters, defined_label,
    label_prefix, label_token_end, larger, lemma_assembled_from, lemma_assembled_line,
    lemma_defined_label, no_names, Pass, prescanned, scanned_from, temp_token_end,
};
use crate::error::ParseErrorView;
use crate::expansion::{
    auto_label_end, auto_labels_from, auto_vars_from, AutoLabels, AutoVars, dispatched, expanded,
    expanded_line, expanded_lines, Expansion, fresh_between, judged, labels_made_within,
    lemma_auto_labels, lemma_auto_vars, lemma_dispatched, lemma_expanded_line, lemma_expanded_lines,
    lemma_memo_label, lemma_one_more_label, memo_label, names_made_within, substituted,
};
use crate::macros::{MacroView, pattern_match, spec_macro};
use crate::program::{Instruction, Label, label_capture};
use crate::text::{
    all_in, CharClass, decimal_digits, has_at, is_digit, lemma_decimal_round_trip, lemma_run_end,
    lemma_run_end_in_prefix, lemma_run_end_in_suffix, lemma_run_end_unique, parse_decimal, run_end,
    trim,
};

verus! {

broadcast use {Label::lemma_with_key, Label::lemma_key_determines};

/// Whether the counters `hi` are at least the number of the label that is
/// written at index `i` of the line `s`, if one is written there.
pub open spec fn covers_at(hi: Seq<usize>, s: Seq<char>, i: int) -> bool {
    match label_token_end(s, i) {
        Some(e) => match label_capture(s, i, e) {
            Some((g, n)) => n <= hi[g as int],
            None => false,
        },
        None => true,
    }
}

/// Whether the counters `hi` are at least the number of every label that the
/// line `s` writes.
pub open spec fn covers(hi: Seq<usize>, s: Seq<char>) -> bool {
    forall|i: int| 0 <= i < s.len() ==> covers_at(hi, s, i)
}

/// Counters that cover a line still cover it when they are raised.
pub proof fn lemma_covers_more(lo: Seq<usize>, hi: Seq<usize>, s: Seq<char>)
    requires
        lo.len() == 5,
        at_most(lo, hi),
        covers(lo, s),
    ensures
        covers(hi, s),
{
    assert forall|i: int| 0 <= i < s.len() implies covers_at(hi, s, i) by {
        assert(covers_at(lo, s, i));
    }
}

/// The scan of a line only raises the counters, and the counters it leaves
/// cover what it has scanned.
pub proof fn lemma_scanned_from(s: Seq<char>, i: int, c: Counters)
    requires
        0 <= i,
        c.max_labels.len() == 5,
    ensures
        scanned_from(s, i, c) matches Some(d) ==> {
            &&& c.max_temp_var <= d.max_temp_var
            &&& at_most(c.max_labels, d.max_labels)
            &&& forall|p: int| i <= p < s.len() ==> covers_at(d.max_labels, s, p)
        },
    decreases s.len() - i,
{
    if i < s.len() {
        lemma_run_end(s, i + 1, CharClass::Digit);
        let e = run_end(s, i + 1, CharClass::Digit);
        assert forall|p: int| i < p < e implies is_digit(s[p]) by {
            assert(s.subrange(i + 1, e)[p - i - 1] == s[p]);
        }
        if temp_token_end(s, i) is Some {
            if let Some(n) = parse_decimal(s.subrange(i + 1, e)) {
                let next = Counters {
                    max_temp_var: larger(c.max_temp_var, n),
                    max_labels: c.max_labels,
                };
                lemma_scanned_from(s, e, next);
                if let Some(d) = scanned_from(s, e, next) {
                    assert forall|p: int| i <= p < s.len() implies covers_at(
                        d.max_labels,
                        s,
                        p,
                    ) by {
                        if p < e {
                            assert(label_token_end(s, p) is None);
                        }
                    }
                }
            }
        } else if label_token_end(s, i) is Some {
            if let Some((g, n)) = label_capture(s, i, e) {
                let next = Counters {
                    max_temp_var: c.max_temp_var,
                    max_labels: c.max_labels.update(g as int, larger(c.max_labels[g as int], n)),
                };
                assert(at_most(c.max_labels, next.max_labels));
                lemma_scanned_from(s, e, next);
                if let Some(d) = scanned_from(s, e, next) {
                    assert(next.max_labels[g as int] <= d.max_labels[g as int]);
                    assert forall|p: int| i <= p < s.len() implies covers_at(
                        d.max_labels,
                        s,
                        p,
                    ) by {
                        if i < p < e {
                            assert(label_token_end(s, p) is None);
                        }
                    }
                    assert forall|k: int| 0 <= k < 5 implies #[trigger] c.max_labels[k]
                        <= d.max_labels[k] by {
                        assert(c.max_labels[k] <= next.max_labels[k]);
                    }
                }
            }
        } else {
            lemma_scanned_from(s, i + 1, c);
        }
    }
}

/// The first pass only raises the counters, and the counters it leaves cover
/// every line it has scanned.
pub proof fn lemma_prescanned(lines: Seq<Seq<char>>, i: int, c: Counters)
    requires
        0 <= i,
        c.max_labels.len() == 5,
    ensures
        prescanned(lines, i, c) matches Ok(d) ==> {
            &&& c.max_temp_var <= d.max_temp_var
            &&& at_most(c.max_labels, d.max_labels)
            &&& forall|k: int| i <= k < lines.len() ==> covers(d.max_labels, #[trigger] lines[k])
        },
    decreases lines.len() - i,
{
    if i < lines.len() {
        lemma_scanned_from(lines[i], 0, c);
        if let Some(next) = scanned_from(lines[i], 0, c) {
            lemma_prescanned(lines, i + 1, next);
            if let Ok(d) = prescanned(lines, i, c) {
                assert(covers(next.max_labels, lines[i]));
                lemma_covers_more(next.max_labels, d.max_labels, lines[i]);
            }
        }
    }
}

/// Whether no label of a table has a number above the counter of its group.
pub open spec fn labels_within(labels: Map<usize, usize>, hi: Seq<usize>) -> bool {
    &&& hi.len() == 5
    &&& forall|key: usize| #[trigger]
        labels.contains_key(key) ==> Label::with_key(key).number() <= hi[Label::with_key(
            key,
        ).group()]
}

/// Whether no label that an assembly has defined has a number above the
/// counter of its group.
pub open spec fn table_within(a: AssemblyView) -> bool {
    labels_within(a.labels, a.max_labels)
}

/// The label that a covered line defines has a number that is not above the
/// counter of its group.
pub proof fn lemma_defined_is_covered(hi: Seq<usize>, s: Seq<char>, l: Label)
    requires
        covers(hi, s),
        label_prefix(s) matches Some(j) && Label::spec_parse(s.subrange(1, j)) == Some(l),
    ensures
        l.number() <= hi[l.group()],
{
    let j = label_prefix(s)->0;
    let name = s.subrange(1, j);
    assert(name[0] == s[1]);
    assert(name.skip(1) =~= s.subrange(2, j));
    assert(all_in(s.subrange(2, j), CharClass::Digit));
    lemma_run_end_unique(s, 2, j, CharClass::Digit);
    assert(label_token_end(s, 1) == Some(j));
    assert(covers_at(hi, s, 1));
}

/// Entering the label of a covered line leaves the table within the
/// counters.
pub proof fn lemma_defined_within(s: Seq<char>, a: AssemblyView, line_num: usize)
    requires
        table_within(a),
        covers(a.max_labels, s),
    ensures
        defined_label(s, a, line_num) matches Ok(r) ==> table_within(r.1),
{
    if let Ok(r) = defined_label(s, a, line_num) {
        if let Some(j) = label_prefix(s) {
            let l = Label::spec_parse(s.subrange(1, j))->0;
            lemma_defined_is_covered(a.max_labels, s, l);
            assert forall|key: usize| #[trigger]
                r.1.labels.contains_key(key) implies Label::with_key(key).number()
                <= r.1.max_labels[Label::with_key(key).group()] by {
                if key != l.key() {
                    assert(a.labels.contains_key(key));
                }
            }
        }
    }
}

/// A line that defines a label whose number is above the counter of its
/// group, as a label is that was made for this line, is never refused as a
/// redefinition: the label is entered.
pub proof fn lemma_new_label_defines(
    s: Seq<char>,
    a: AssemblyView,
    before: Seq<usize>,
    line_num: usize,
    l: Label,
)
    requires
        labels_within(a.labels, before),
        l.number() > before[l.group()],
        label_prefix(s) matches Some(j) && Label::spec_parse(s.subrange(1, j)) == Some(l),
    ensures
        defined_label(s, a, line_num) matches Ok(r) && r.1.labels.contains_key(l.key()),
{
    if a.labels.contains_key(l.key()) {
        assert(Label::with_key(l.key()) == l);
    }
}

/// A label above the counter of its group is not in a table that is within
/// the counters: the label that an expansion makes next is defined nowhere.
pub proof fn lemma_next_label_is_undefined(a: AssemblyView, group: int)
    requires
        table_within(a),
        0 <= group < 5,
        Label::fits(group, a.max_labels[group] + 1),
    ensures
        !a.labels.contains_key(Label::spec_new(group, a.max_labels[group] + 1).key()),
{
    let l = Label::spec_new(group, a.max_labels[group] + 1);
    assert(l.group() == group && l.number() == a.max_labels[group] + 1);
}

/// Whether a label is written alike at index `p` of `a` and at index `q` of
/// `b`, or at neither.
pub open spec fn same_token(a: Seq<char>, p: int, b: Seq<char>, q: int) -> bool {
    match (label_token_end(a, p), label_token_end(b, q)) {
        (Some(e), Some(f)) => e - p == f - q && label_capture(a, p, e) == label_capture(b, q, f),
        (None, None) => true,
        _ => false,
    }
}

/// In the part that two texts share, where the part ends in both texts or is
/// followed by no digit, the same labels are written.
pub proof fn lemma_token_in_prefix(a: Seq<char>, b: Seq<char>, p: int, k: int)
    requires
        0 <= p < k,
        k <= a.len(),
        k <= b.len(),
        forall|j: int| 0 <= j < k ==> a[j] == b[j],
        k == a.len() || !is_digit(a[k]),
        k == b.len() || !is_digit(b[k]),
    ensures
        same_token(a, p, b, p),
{
    lemma_run_end_in_prefix(a, b, p + 1, k, CharClass::Digit);
    lemma_run_end(a, p + 1, CharClass::Digit);
    let e = run_end(a, p + 1, CharClass::Digit);
    assert(a.subrange(p + 1, e) =~= b.subrange(p + 1, e));
}

/// Where two texts are the same from an index of each on, the same labels
/// are written from there on.
pub proof fn lemma_token_in_suffix(a: Seq<char>, p: int, b: Seq<char>, q: int)
    requires
        0 <= p < a.len(),
        0 <= q < b.len(),
        a.skip(p) == b.skip(q),
    ensures
        same_token(a, p, b, q),
{
    assert(a.skip(p).len() == a.len() - p);
    assert(b.skip(q).len() == b.len() - q);
    assert(a[p] == a.skip(p)[0]);
    assert(b[q] == b.skip(q)[0]);
    assert(a.skip(p + 1) =~= a.skip(p).skip(1));
    assert(b.skip(q + 1) =~= b.skip(q).skip(1));
    lemma_run_end_in_suffix(a, p + 1, b, q + 1, CharClass::Digit);
    lemma_run_end(a, p + 1, CharClass::Digit);
    lemma_run_end(b, q + 1, CharClass::Digit);
    let e = run_end(a, p + 1, CharClass::Digit);
    let f = run_end(b, q + 1, CharClass::Digit);
    assert(a.subrange(p + 1, e) =~= a.skip(p + 1).take(e - p - 1));
    assert(b.subrange(q + 1, f) =~= b.skip(q + 1).take(f - q - 1));
}

/// The text of a label, where no digit follows it, is read as the label.
pub proof fn lemma_token_of_label(t: Seq<char>, k: int, l: Label)
    requires
        0 <= k,
        k + l.text().len() <= t.len(),
        t.subrange(k, k + l.text().len()) == l.text(),
        k + l.text().len() == t.len() || !is_digit(t[k + l.text().len()]),
    ensures
        label_token_end(t, k) == Some(k + l.text().len()),
        label_capture(t, k, k + l.text().len()) == Some((l.group() as usize, l.number() as usize)),
        forall|p: int| k < p < k + l.text().len() ==> label_token_end(t, p) is None,
{
    let text = l.text();
    let n = text.len() as int;
    lemma_decimal_round_trip(l.number() as nat);
    assert(text.skip(1) =~= decimal_digits(l.number() as nat));
    assert(t[k] == t.subrange(k, k + n)[0]);
    assert(t.subrange(k + 1, k + n) =~= text.skip(1));
    lemma_run_end_unique(t, k + 1, k + n, CharClass::Digit);
    assert forall|p: int| k < p < k + n implies label_token_end(t, p) is None by {
        assert(t[p] == t.subrange(k + 1, k + n)[p - k - 1]);
    }
}

/// A covered line stays covered where an automatic label in it gives way to
/// a label that the counters cover: what stands before and behind is read as
/// before, and what is put in is read as the label.
pub proof fn lemma_put_label_covered(
    head: Seq<char>,
    token: Seq<char>,
    tail: Seq<char>,
    made: Label,
    hi: Seq<usize>,
    higher: Seq<usize>,
)
    requires
        hi.len() == 5,
        at_most(hi, higher),
        covers(hi, head + token + tail),
        token.len() > 0 && token[0] == '%',
        tail.len() == 0 || !is_digit(tail[0]),
        made.number() <= higher[made.group()],
    ensures
        covers(higher, head + made.text() + tail),
{
    let whole = head + token + tail;
    let after = head + made.text() + tail;
    let k = head.len() as int;
    let w = made.text().len() as int;
    let v = token.len() as int;
    lemma_decimal_round_trip(made.number() as nat);
    assert(after.subrange(k, k + w) =~= made.text());
    assert(k + w < after.len() ==> after[k + w] == tail[0]);
    lemma_token_of_label(after, k, made);
    assert(whole[k] == '%');
    assert(after[k] == made.text()[0]);
    assert forall|j: int| 0 <= j < k implies whole[j] == after[j] by {
        assert(whole[j] == head[j]);
        assert(after[j] == head[j]);
    }
    assert forall|p: int| 0 <= p < after.len() implies covers_at(higher, after, p) by {
        if p < k {
            lemma_token_in_prefix(whole, after, p, k);
            assert(covers_at(hi, whole, p));
        } else if p >= k + w {
            let q = p - w + v;
            assert(after.skip(p) =~= tail.skip(p - k - w));
            assert(whole.skip(q) =~= tail.skip(p - k - w));
            lemma_token_in_suffix(after, p, whole, q);
            assert(covers_at(hi, whole, q));
        }
    }
}

/// Replacing the automatic labels of a line whose labels the counters cover
/// gives a line whose labels the counters cover: what the line writes itself
/// stays, and what is put in is a label that was made, which the counters
/// cover since they made it.
pub proof fn lemma_auto_labels_covered(
    s: Seq<char>,
    i: int,
    st: AutoLabels,
    line_num: usize,
    lo: Seq<usize>,
)
    requires
        0 <= i <= s.len(),
        st.max_labels.len() == 5,
        at_most(lo, st.max_labels),
        labels_made_within(st.memo, lo, st.max_labels),
        covers(st.max_labels, st.text + s.subrange(i, s.len() as int)),
    ensures
        auto_labels_from(s, i, st, line_num) matches Ok(r) ==> covers(r.max_labels, r.text),
    decreases s.len() - i,
{
    let whole = st.text + s.subrange(i, s.len() as int);
    if i >= s.len() {
        assert(whole =~= st.text);
    } else {
        match auto_label_end(s, i) {
            None => {
                let next = AutoLabels {
                    text: st.text.push(s[i]),
                    memo: st.memo,
                    max_labels: st.max_labels,
                };
                assert(next.text + s.subrange(i + 1, s.len() as int) =~= whole);
                lemma_auto_labels_covered(s, i + 1, next, line_num, lo);
            },
            Some(e) => {
                lemma_run_end(s, i + 2, CharClass::Digit);
                if let Some((g, n)) = label_capture(s, i + 1, e) {
                    if Label::fits(g as int, n as int) {
                        let token = Label::spec_new(g as int, n as int).key();
                        let top = st.max_labels[g as int];
                        let tail = s.subrange(e, s.len() as int);
                        assert(whole =~= st.text + s.subrange(i, e) + tail);
                        match memo_label(st.memo, token, 0) {
                            Some(key) => {
                                let made = Label::with_key(key);
                                let next = AutoLabels {
                                    text: st.text + made.text(),
                                    memo: st.memo,
                                    max_labels: st.max_labels,
                                };
                                lemma_memo_label(st.memo, token, 0);
                                let k = choose|k: int|
                                    0 <= k < st.memo.len() && (#[trigger] st.memo[k]).1 == key;
                                assert(fresh_between(st.memo[k].1, lo, st.max_labels));
                                lemma_put_label_covered(
                                    st.text,
                                    s.subrange(i, e),
                                    tail,
                                    made,
                                    st.max_labels,
                                    st.max_labels,
                                );
                                lemma_auto_labels_covered(s, e, next, line_num, lo);
                            },
                            None => {
                                if Label::fits(g as int, top + 1) {
                                    let made = Label::spec_new(g as int, top + 1);
                                    let next = AutoLabels {
                                        text: st.text + made.text(),
                                        memo: st.memo.push((token, made.key())),
                                        max_labels: st.max_labels.update(
                                            g as int,
                                            (top + 1) as usize,
                                        ),
                                    };
                                    lemma_one_more_label(
                                        st.memo,
                                        lo,
                                        st.max_labels,
                                        g as int,
                                        token,
                                    );
                                    lemma_put_label_covered(
                                        st.text,
                                        s.subrange(i, e),
                                        tail,
                                        made,
                                        st.max_labels,
                                        next.max_labels,
                                    );
                                    lemma_auto_labels_covered(s, e, next, line_num, lo);
                                }
                            },
                        }
                    }
                }
            },
        }
    }
}

/// Whether the counters `hi` cover every line of every body of the macros.
pub open spec fn bodies_covered(hi: Seq<usize>, macros: Seq<MacroView>) -> bool {
    forall|m: int, k: int|
        0 <= m < macros.len() && 0 <= k < macros[m].body.len() ==> covers(
            hi,
            #[trigger] macros[m].body[k],
        )
}

/// Counters that cover the bodies of the macros still cover them when they
/// are raised.
pub proof fn lemma_bodies_covered_more(lo: Seq<usize>, hi: Seq<usize>, macros: Seq<MacroView>)
    requires
        lo.len() == 5,
        at_most(lo, hi),
        bodies_covered(lo, macros),
    ensures
        bodies_covered(hi, macros),
{
    assert forall|m: int, k: int|
        0 <= m < macros.len() && 0 <= k < macros[m].body.len() implies covers(
        hi,
        #[trigger] macros[m].body[k],
    ) by {
        lemma_covers_more(lo, hi, macros[m].body[k]);
    }
}

/// A table within the counters stays within them when they are raised.
pub proof fn lemma_table_within_more(a: AssemblyView, b: AssemblyView)
    requires
        table_within(a),
        at_most(a.max_labels, b.max_labels),
        b.labels == a.labels,
    ensures
        table_within(b),
{
    assert forall|key: usize| #[trigger] b.labels.contains_key(key) implies Label::with_key(
        key,
    ).number() <= b.max_labels[Label::with_key(key).group()] by {
        assert(a.labels.contains_key(key));
    }
}

/// The expansion of a call leaves the table within the counters.
pub proof fn lemma_expanded_within(
    macros: Seq<MacroView>,
    m: int,
    groups: Seq<Option<Seq<char>>>,
    a: AssemblyView,
    line_num: usize,
    depth: nat,
)
    requires
        0 <= m < macros.len(),
        table_within(a),
        bodies_covered(a.max_labels, macros),
    ensures
        expanded(macros, m, groups, a, line_num, depth) matches Ok(b) ==> table_within(b),
    decreases depth, 3int, 0int,
{
    lemma_expanded_lines_within(
        macros,
        m,
        groups,
        0,
        Expansion { labels: Seq::empty(), vars: Seq::empty(), assembly: a },
        line_num,
        depth,
        a.max_labels,
        a.max_temp_var,
    );
}

/// The lines of a body leave the table within the counters.
pub proof fn lemma_expanded_lines_within(
    macros: Seq<MacroView>,
    m: int,
    groups: Seq<Option<Seq<char>>>,
    k: int,
    st: Expansion,
    line_num: usize,
    depth: nat,
    lo: Seq<usize>,
    lo_var: usize,
)
    requires
        0 <= m < macros.len(),
        0 <= k,
        names_made_within(st, lo, lo_var),
        table_within(st.assembly),
        bodies_covered(st.assembly.max_labels, macros),
    ensures
        expanded_lines(macros, m, groups, k, st, line_num, depth) matches Ok(r) ==> table_within(
            r.assembly,
        ),
    decreases depth, 2int, macros[m].body.len() - k,
{
    if k < macros[m].body.len() {
        let line = macros[m].body[k];
        lemma_expanded_line(macros, m, groups, line, st, line_num, depth, lo, lo_var);
        lemma_expanded_line_within(macros, m, groups, k, st, line_num, depth, lo, lo_var);
        if let Ok(next) = expanded_line(macros, m, groups, line, st, line_num, depth) {
            lemma_bodies_covered_more(st.assembly.max_labels, next.assembly.max_labels, macros);
            lemma_expanded_lines_within(
                macros,
                m,
                groups,
                k + 1,
                next,
                line_num,
                depth,
                lo,
                lo_var,
            );
        }
    }
}

/// One line of a body leaves the table within the counters.
pub proof fn lemma_expanded_line_within(
    macros: Seq<MacroView>,
    m: int,
    groups: Seq<Option<Seq<char>>>,
    k: int,
    st: Expansion,
    line_num: usize,
    depth: nat,
    lo: Seq<usize>,
    lo_var: usize,
)
    requires
        0 <= m < macros.len(),
        0 <= k < macros[m].body.len(),
        names_made_within(st, lo, lo_var),
        table_within(st.assembly),
        bodies_covered(st.assembly.max_labels, macros),
    ensures
        expanded_line(macros, m, groups, macros[m].body[k], st, line_num, depth) matches Ok(r)
            ==> table_within(r.assembly),
    decreases depth, 1int, 0int,
{
    let line = macros[m].body[k];
    let start = AutoLabels {
        text: Seq::empty(),
        memo: st.labels,
        max_labels: st.assembly.max_labels,
    };
    assert(start.text + line.subrange(0, line.len() as int) =~= line);
    lemma_auto_labels(line, 0, start, line_num, lo);
    lemma_auto_labels_covered(line, 0, start, line_num, lo);
    if let Ok(l) = auto_labels_from(line, 0, start, line_num) {
        let relabelled = AssemblyView { max_labels: l.max_labels, ..st.assembly };
        lemma_table_within_more(st.assembly, relabelled);
        lemma_defined_within(l.text, relabelled, line_num);
        lemma_defined_label(l.text, relabelled, line_num);
        if let Ok((rest, a)) = defined_label(l.text, relabelled, line_num) {
            if let Some(call) = substituted(trim(rest), macros[m].placeholders, groups, 0) {
                let begin = AutoVars {
                    text: Seq::empty(),
                    memo: st.vars,
                    max_temp_var: a.max_temp_var,
                };
                if let Ok(v) = auto_vars_from(call, 0, begin, line_num) {
                    let b = AssemblyView { max_temp_var: v.max_temp_var, ..a };
                    lemma_table_within_more(a, b);
                    match Instruction::spec_parse(v.text) {
                        Ok(Some(instruction)) => {
                            lemma_table_within_more(
                                b,
                                AssemblyView {
                                    instructions: b.instructions.push(instruction),
                                    ..b
                                },
                            );
                        },
                        Ok(None) => {
                            lemma_bodies_covered_more(
                                st.assembly.max_labels,
                                b.max_labels,
                                macros,
                            );
                            lemma_dispatched_within(macros, v.text, 0, b, line_num, depth);
                        },
                        Err(e) => {},
                    }
                }
            }
        }
    }
}

/// A line that is expanded as a macro call leaves the table within the
/// counters.
pub proof fn lemma_dispatched_within(
    macros: Seq<MacroView>,
    text: Seq<char>,
    k: int,
    a: AssemblyView,
    line_num: usize,
    depth: nat,
)
    requires
        0 <= k,
        table_within(a),
        bodies_covered(a.max_labels, macros),
    ensures
        dispatched(macros, text, k, a, line_num, depth) matches Ok(Some(b)) ==> table_within(b),
    decreases depth, 0int, macros.len() - k,
{
    if k < macros.len() {
        match judged(pattern_match(macros[k].pattern, text), line_num, depth) {
            Err(e) => {},
            Ok(None) => {
                lemma_dispatched_within(macros, text, k + 1, a, line_num, depth);
            },
            Ok(Some(groups)) => {
                lemma_expanded_within(macros, k, groups, a, line_num, (depth - 1) as nat);
            },
        }
    }
}

/// Whether the second pass stands well: the table is within the counters,
/// and the counters cover the lines of the source, the bodies of the macros
/// and the body of the definition that is open.
pub open spec fn pass_within(source: Seq<Seq<char>>, st: Pass) -> bool {
    &&& table_within(st.assembly)
    &&& bodies_covered(st.assembly.max_labels, st.macros)
    &&& forall|k: int|
        0 <= k < source.len() ==> covers(st.assembly.max_labels, #[trigger] source[k])
    &&& st.open matches Some(m) ==> forall|k: int|
        0 <= k < m.body.len() ==> covers(st.assembly.max_labels, #[trigger] m.body[k])
}

/// A pass that stands well still does when the counters are raised.
pub proof fn lemma_pass_within_more(source: Seq<Seq<char>>, st: Pass, a: AssemblyView)
    requires
        pass_within(source, st),
        table_within(a),
        at_most(st.assembly.max_labels, a.max_labels),
    ensures
        pass_within(source, Pass { assembly: a, ..st }),
{
    let lo = st.assembly.max_labels;
    lemma_bodies_covered_more(lo, a.max_labels, st.macros);
    assert forall|k: int| 0 <= k < source.len() implies covers(
        a.max_labels,
        #[trigger] source[k],
    ) by {
        lemma_covers_more(lo, a.max_labels, source[k]);
    }
    if let Some(m) = st.open {
        assert forall|k: int| 0 <= k < m.body.len() implies covers(
            a.max_labels,
            #[trigger] m.body[k],
        ) by {
            lemma_covers_more(lo, a.max_labels, m.body[k]);
        }
    }
}

/// The second pass keeps standing well, line after line.
pub proof fn lemma_assembled_from_within(source: Seq<Seq<char>>, i: int, st: Pass, depth: nat)
    requires
        0 <= i,
        pass_within(source, st),
    ensures
        assembled_from(source, i, st, depth) matches Ok(r) ==> pass_within(source, r),
    decreases source.len() - i,
{
    if i < source.len() {
        let line = source[i];
        let n = i as usize;
        let hi = st.assembly.max_labels;
        if line.len() == 0 || line[0] == '#' {
            lemma_assembled_from_within(source, i + 1, st, depth);
        } else if line[0] == '@' {
            if has_at(line, 0, "@def"@) {
                if st.open is None {
                    let m = spec_macro(
                        trim(line.subrange("@def"@.len() as int, line.len() as int)),
                    );
                    lemma_assembled_from_within(
                        source,
                        i + 1,
                        Pass { open: Some(m), opened_at: n, ..st },
                        depth,
                    );
                }
            } else if has_at(line, 0, "@end"@) {
                if let Some(m) = st.open {
                    let next = Pass { macros: st.macros.push(m), open: None, ..st };
                    assert forall|j: int, k: int|
                        0 <= j < next.macros.len() && 0 <= k
                            < next.macros[j].body.len() implies covers(
                        hi,
                        #[trigger] next.macros[j].body[k],
                    ) by {
                        if j < st.macros.len() {
                            assert(covers(hi, st.macros[j].body[k]));
                        } else {
                            assert(covers(hi, m.body[k]));
                        }
                    }
                    lemma_assembled_from_within(source, i + 1, next, depth);
                }
            }
        } else {
            match st.open {
                Some(m) => {
                    let longer = MacroView { body: m.body.push(line), ..m };
                    assert forall|k: int| 0 <= k < longer.body.len() implies covers(
                        hi,
                        #[trigger] longer.body[k],
                    ) by {
                        if k < m.body.len() {
                            assert(covers(hi, m.body[k]));
                        } else {
                            assert(covers(hi, source[i]));
                        }
                    }
                    lemma_assembled_from_within(
                        source,
                        i + 1,
                        Pass { open: Some(longer), ..st },
                        depth,
                    );
                },
                None => {
                    lemma_assembled_line_within(st.macros, line, st.assembly, n, depth);
                    lemma_assembled_line(st.macros, line, st.assembly, n, depth);
                    if let Ok(a) = assembled_line(st.macros, line, st.assembly, n, depth) {
                        lemma_pass_within_more(source, st, a);
                        lemma_assembled_from_within(
                            source,
                            i + 1,
                            Pass { assembly: a, ..st },
                            depth,
                        );
                    }
                },
            }
        }
    }
}

/// Assembling a covered line leaves the table within the counters.
pub proof fn lemma_assembled_line_within(
    macros: Seq<MacroView>,
    s: Seq<char>,
    a: AssemblyView,
    line_num: usize,
    depth: nat,
)
    requires
        table_within(a),
        covers(a.max_labels, s),
        bodies_covered(a.max_labels, macros),
    ensures
        assembled_line(macros, s, a, line_num, depth) matches Ok(b) ==> table_within(b),
{
    lemma_defined_within(s, a, line_num);
    lemma_defined_label(s, a, line_num);
    if let Ok((rest, b)) = defined_label(s, a, line_num) {
        match Instruction::spec_parse(trim(rest)) {
            Ok(Some(instruction)) => {
                lemma_table_within_more(
                    b,
                    AssemblyView { instructions: b.instructions.push(instruction), ..b },
                );
            },
            Ok(None) => {
                lemma_dispatched_within(macros, trim(rest), 0, b, line_num, depth);
            },
            Err(e) => {},
        }
    }
}

/// In a program that is assembled, no label that is defined has a number
/// above the counter of its group. So the label that an expansion makes next
/// is never one that is defined already, in the source or by an expansion
/// before: it is defined without fail.
pub proof fn lemma_assembled_within(
    prologue: Seq<Seq<char>>,
    source: Seq<Seq<char>>,
    depth: nat,
)
    ensures
        assembled(prologue, source, depth) matches Ok(p) ==> labels_within(
            p.labels,
            p.max_labels,
        ),
{
    lemma_prescanned(prologue, 0, no_names());
    if let Ok(c) = prescanned(prologue, 0, no_names()) {
        lemma_prescanned(source, 0, c);
        if let Ok(d) = prescanned(source, 0, c) {
            let start = Pass {
                macros: Seq::empty(),
                open: None,
                opened_at: 0,
                assembly: AssemblyView {
                    instructions: Seq::empty(),
                    labels: Map::empty(),
                    max_temp_var: d.max_temp_var,
                    max_labels: d.max_labels,
                },
            };
            assert forall|k: int| 0 <= k < prologue.len() implies covers(
                d.max_labels,
                #[trigger] prologue[k],
            ) by {
                lemma_covers_more(c.max_labels, d.max_labels, prologue[k]);
            }
            assert(pass_within(prologue, start));
            lemma_assembled_from_within(prologue, 0, start, depth);
            lemma_assembled_from(prologue, 0, start, depth);
            if let Ok(p) = assembled_from(prologue, 0, start, depth) {
                assert forall|k: int| 0 <= k < source.len() implies covers(
                    p.assembly.max_labels,
                    #[trigger] source[k],
                ) by {
                    lemma_covers_more(d.max_labels, p.assembly.max_labels, source[k]);
                }
                assert(pass_within(source, p));
                lemma_assembled_from_within(source, 0, p, depth);
            }
        }
    }
}

// =================================================================================================
// Where the labels of an expansion lead
// =================================================================================================

/// Whether every label that `b` holds and `a` does not stands before an
/// instruction that `b` has and `a` has not, or at the end of `b`.
pub open spec fn new_labels_inside(a: AssemblyView, b: AssemblyView) -> bool {
    forall|key: usize| #[trigger]
        b.labels.contains_key(key) && !a.labels.contains_key(key) ==> a.instructions.len()
            <= b.labels[key] <= b.instructions.len()
}

/// What holds of the new labels from `a` to `b` and from `b` to `c` holds of
/// them from `a` to `c`.
pub proof fn lemma_new_labels_chain(a: AssemblyView, b: AssemblyView, c: AssemblyView)
    requires
        a.grows_to(b),
        b.grows_to(c),
        new_labels_inside(a, b),
        new_labels_inside(b, c),
    ensures
        new_labels_inside(a, c),
{
    assert forall|key: usize| #[trigger]
        c.labels.contains_key(key) && !a.labels.contains_key(key) implies a.instructions.len()
        <= c.labels[key] <= c.instructions.len() by {
        if b.labels.contains_key(key) {
            assert(c.labels[key] == b.labels[key]);
        }
    }
}

/// A label that a line defines stands before the next instruction.
pub proof fn lemma_defined_label_inside(s: Seq<char>, a: AssemblyView, line_num: usize)
    requires
        a.instructions.len() <= usize::MAX,
    ensures
        defined_label(s, a, line_num) matches Ok(r) ==> new_labels_inside(a, r.1),
{
}

/// The labels that the expansion of a call defines stand before instructions
/// of that expansion, or at its end. So a jump to a label that an expansion
/// made and defined stays within that expansion, and two expansions, whose
/// labels differ, lead to no instruction of each other.
pub proof fn lemma_expanded_inside(
    macros: Seq<MacroView>,
    m: int,
    groups: Seq<Option<Seq<char>>>,
    a: AssemblyView,
    line_num: usize,
    depth: nat,
)
    requires
        a.max_labels.len() == 5,
    ensures
        expanded(macros, m, groups, a, line_num, depth) matches Ok(b) ==> b.instructions.len()
            <= usize::MAX ==> new_labels_inside(a, b),
    decreases depth, 3int, 0int,
{
    lemma_expanded_lines_inside(
        macros,
        m,
        groups,
        0,
        Expansion { labels: Seq::empty(), vars: Seq::empty(), assembly: a },
        line_num,
        depth,
        a.max_labels,
        a.max_temp_var,
    );
}

/// The labels that the lines of a body define stand before instructions that
/// those lines add, or at their end.
pub proof fn lemma_expanded_lines_inside(
    macros: Seq<MacroView>,
    m: int,
    groups: Seq<Option<Seq<char>>>,
    k: int,
    st: Expansion,
    line_num: usize,
    depth: nat,
    lo: Seq<usize>,
    lo_var: usize,
)
    requires
        names_made_within(st, lo, lo_var),
    ensures
        expanded_lines(macros, m, groups, k, st, line_num, depth) matches Ok(r)
            ==> r.assembly.instructions.len() <= usize::MAX ==> new_labels_inside(
            st.assembly,
            r.assembly,
        ),
    decreases depth, 2int, macros[m].body.len() - k,
{
    if 0 <= k < macros[m].body.len() {
        let line = macros[m].body[k];
        lemma_expanded_line(macros, m, groups, line, st, line_num, depth, lo, lo_var);
        if let Ok(next) = expanded_line(macros, m, groups, line, st, line_num, depth) {
            lemma_expanded_lines(macros, m, groups, k + 1, next, line_num, depth, lo, lo_var);
            if let Ok(r) = expanded_lines(macros, m, groups, k + 1, next, line_num, depth) {
                if r.assembly.instructions.len() <= usize::MAX {
                    lemma_expanded_line_inside(
                        macros,
                        m,
                        groups,
                        line,
                        st,
                        line_num,
                        depth,
                        lo,
                        lo_var,
                    );
                    lemma_expanded_lines_inside(
                        macros,
                        m,
                        groups,
                        k + 1,
                        next,
                        line_num,
                        depth,
                        lo,
                        lo_var,
                    );
                    lemma_new_labels_chain(st.assembly, next.assembly, r.assembly);
                }
            }
        }
    }
}

/// The label that a line of a body defines, and the labels of the calls that
/// the line leads to, stand before instructions that the line adds, or at
/// their end.
pub proof fn lemma_expanded_line_inside(
    macros: Seq<MacroView>,
    m: int,
    groups: Seq<Option<Seq<char>>>,
    line: Seq<char>,
    st: Expansion,
    line_num: usize,
    depth: nat,
    lo: Seq<usize>,
    lo_var: usize,
)
    requires
        names_made_within(st, lo, lo_var),
    ensures
        expanded_line(macros, m, groups, line, st, line_num, depth) matches Ok(r)
            ==> r.assembly.instructions.len() <= usize::MAX ==> new_labels_inside(
            st.assembly,
            r.assembly,
        ),
    decreases depth, 1int, 0int,
{
    lemma_expanded_line(macros, m, groups, line, st, line_num, depth, lo, lo_var);
    if let Ok(r) = expanded_line(macros, m, groups, line, st, line_num, depth) {
        if r.assembly.instructions.len() <= usize::MAX {
            let start = AutoLabels {
                text: Seq::empty(),
                memo: st.labels,
                max_labels: st.assembly.max_labels,
            };
            lemma_auto_labels(line, 0, start, line_num, lo);
            let l = auto_labels_from(line, 0, start, line_num)->Ok_0;
            let relabelled = AssemblyView { max_labels: l.max_labels, ..st.assembly };
            lemma_defined_label(l.text, relabelled, line_num);
            lemma_defined_label_inside(l.text, relabelled, line_num);
            let (rest, a) = defined_label(l.text, relabelled, line_num)->Ok_0;
            let call = substituted(trim(rest), macros[m].placeholders, groups, 0)->0;
            let begin = AutoVars {
                text: Seq::empty(),
                memo: st.vars,
                max_temp_var: a.max_temp_var,
            };
            lemma_auto_vars(call, 0, begin, line_num, lo_var);
            let v = auto_vars_from(call, 0, begin, line_num)->Ok_0;
            let b = AssemblyView { max_temp_var: v.max_temp_var, ..a };
            assert(st.assembly.grows_to(b));
            assert(new_labels_inside(st.assembly, b)) by {
                assert forall|key: usize| #[trigger]
                    b.labels.contains_key(key) && !st.assembly.labels.contains_key(
                        key,
                    ) implies st.assembly.instructions.len() <= b.labels[key]
                    <= b.instructions.len() by {
                    assert(a.labels.contains_key(key) && !relabelled.labels.contains_key(key));
                }
            }
            match Instruction::spec_parse(v.text) {
                Ok(Some(instruction)) => {
                    assert forall|key: usize| #[trigger]
                        r.assembly.labels.contains_key(key) && !st.assembly.labels.contains_key(
                            key,
                        ) implies st.assembly.instructions.len() <= r.assembly.labels[key]
                        <= r.assembly.instructions.len() by {
                        assert(b.labels.contains_key(key));
                    }
                },
                Ok(None) => {
                    lemma_dispatched(macros, v.text, 0, b, line_num, depth);
                    lemma_dispatched_inside(macros, v.text, 0, b, line_num, depth);
                    if let Ok(Some(c)) = dispatched(macros, v.text, 0, b, line_num, depth) {
                        lemma_new_labels_chain(st.assembly, b, c);
                    }
                },
                Err(e) => {},
            }
        }
    }
}

/// The labels that a line defines when it is expanded as a macro call stand
/// before instructions that the call adds, or at their end.
pub proof fn lemma_dispatched_inside(
    macros: Seq<MacroView>,
    text: Seq<char>,
    k: int,
    a: AssemblyView,
    line_num: usize,
    depth: nat,
)
    requires
        a.max_labels.len() == 5,
    ensures
        dispatched(macros, text, k, a, line_num, depth) matches Ok(Some(b))
            ==> b.instructions.len() <= usize::MAX ==> new_labels_inside(a, b),
    decreases depth, 0int, macros.len() - k,
{
    if 0 <= k < macros.len() {
        match judged(pattern_match(macros[k].pattern, text), line_num, depth) {
            Err(e) => {},
            Ok(None) => {
                lemma_dispatched_inside(macros, text, k + 1, a, line_num, depth);
            },
            Ok(Some(groups)) => {
                lemma_expanded_inside(macros, k, groups, a, line_num, (depth - 1) as nat);
            },
        }
    }
}

} // verus!
