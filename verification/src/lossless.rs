//! The content-line codec is lossless: parsing the text that serializing a
//! tree of components writes gives the same tree back.
//!
//! The proof follows the text through the codec's three stages. Serializing
//! writes one folded line per logical line; unfolding the raw lines gives the
//! logical lines back; the component state machine rebuilds the tree from
//! them.

use vstd::prelude::*;
use crate::contentline::{
    begin_kw, end_kw, first_line, fit, fold_rest, fold_spec, lacks_char, lemma_fit_bounds, lemma_split_c_after,
    lemma_unfold_lines_from, parse_lines, parse_spec, parse_step, remove_named, render, scan, ser_comps, ser_lines,
    set_line, split_c,
    split_line_spec, strip_cr, unfold_from, unfold_spec, unfold_step, CompV, LineV, ParseState,
};
use crate::text::{eq_ic, trim_end_ws, trim_start_ws, trim_ws};

verus! {

// ---------------------------------------------------------------------------
// Which trees read back as themselves
// ---------------------------------------------------------------------------

/// A content line reads back as itself: its text splits into the same name,
/// parameters and value, it does not begin like a continuation line, it is
/// no `BEGIN` or `END` line, and it holds no line feed.
pub open spec fn line_ok(l: LineV) -> bool {
    let r = render(l);
    &&& split_line_spec(r) == Some((l.name, l.params, l.value))
    &&& r[0] != ' ' && r[0] != '\t'
    &&& !eq_ic(l.name, begin_kw())
    &&& !eq_ic(l.name, end_kw())
    &&& lacks_char(r, '\n')
}

pub open spec fn lines_ok(ls: Seq<LineV>) -> bool {
    forall|i: int| 0 <= i < ls.len() ==> line_ok(#[trigger] ls[i])
}

/// Every component's name is trimmed and holds no line feed, and every one
/// of its lines reads back as itself.
pub open spec fn comps_ok(cs: Seq<CompV>) -> bool
    decreases cs,
{
    if cs.len() == 0 {
        true
    } else {
        let c = cs.last();
        &&& comps_ok(cs.drop_last())
        &&& trim_ws(c.name) == c.name
        &&& lacks_char(c.name, '\n')
        &&& lines_ok(c.lines)
        &&& comps_ok(c.children)
    }
}

/// Scanning parameter text from quote state `q` meets no `:` outside quotes
/// and ends with every quote closed.
pub open spec fn quiet(p: Seq<char>, q: bool) -> bool
    decreases p.len(),
{
    if p.len() == 0 {
        !q
    } else if p[0] == '"' {
        quiet(p.drop_first(), !q)
    } else if p[0] == ':' && !q {
        false
    } else {
        quiet(p.drop_first(), q)
    }
}

/// The common shape of a content line: a name of ordinary characters, and
/// parameter text that is empty or starts with `;` and keeps its colons
/// inside quotes; no line feed anywhere.
pub open spec fn simple_line(l: LineV) -> bool {
    &&& l.name.len() > 0
    &&& l.name[0] != ' ' && l.name[0] != '\t'
    &&& forall|k: int| 0 <= k < l.name.len() ==> l.name[k] != '"' && l.name[k] != ';' && l.name[k] != ':'
    &&& (l.params.len() == 0 || (l.params[0] == ';' && quiet(l.params.drop_first(), false)))
    &&& !eq_ic(l.name, begin_kw())
    &&& !eq_ic(l.name, end_kw())
    &&& lacks_char(l.name, '\n')
    &&& lacks_char(l.params, '\n')
    &&& lacks_char(l.value, '\n')
}

proof fn lemma_scan_quiet(l: Seq<char>, k: int, c: int, q: bool, s: int)
    requires
        0 <= k <= c < l.len(),
        l[c] == ':',
        quiet(l.subrange(k, c), q),
    ensures
        scan(l, k, q, Some(s)) == Some((c, Some(s))),
    decreases c - k,
{
    let p = l.subrange(k, c);
    if k < c {
        assert(p[0] == l[k]);
        assert(p.drop_first() =~= l.subrange(k + 1, c));
        if l[k] == '"' {
            lemma_scan_quiet(l, k + 1, c, !q, s);
        } else {
            lemma_scan_quiet(l, k + 1, c, q, s);
        }
    }
}

/// Every line of the common shape reads back as itself.
pub proof fn lemma_simple_line_ok(l: LineV)
    requires
        simple_line(l),
    ensures
        line_ok(l),
{
    let r = render(l);
    let nn = l.name.len() as int;
    let np = l.params.len() as int;
    let c = nn + np;
    assert(r[c] == ':');
    assert(r[0] == l.name[0]);
    assert forall|x: int| 0 <= x < nn implies r[x] != '"' && r[x] != ';' && r[x] != ':' by {
        assert(r[x] == l.name[x]);
    }
    lemma_scan_skip(r, 0, nn, false, None);
    assert(r.take(nn) =~= l.name);
    assert(r.skip(c + 1) =~= l.value);
    if np == 0 {
        assert(scan(r, nn, false, None) == Some((nn, None::<int>)));
        assert(l.params =~= Seq::<char>::empty());
    } else {
        assert(r[nn] == ';');
        assert(scan(r, nn, false, None) == scan(r, nn + 1, false, Some(nn)));
        assert(r.subrange(nn + 1, c) =~= l.params.drop_first());
        lemma_scan_quiet(r, nn + 1, c, false, nn);
        assert(r.subrange(nn, c) =~= l.params);
    }
    assert forall|k: int| 0 <= k < r.len() implies r[k] != '\n' by {
        if k < nn {
            assert(r[k] == l.name[k]);
        } else if k < c {
            assert(r[k] == l.params[k - nn]);
        } else if k > c {
            assert(r[k] == l.value[k - c - 1]);
        }
    }
}

/// One component is fine: trimmed name without a line feed, lines that read
/// back, children that are fine.
pub open spec fn node_ok(c: CompV) -> bool {
    &&& trim_ws(c.name) == c.name
    &&& lacks_char(c.name, '\n')
    &&& lines_ok(c.lines)
    &&& comps_ok(c.children)
}

/// A sequence of components is fine exactly when each of them is.
pub proof fn lemma_comps_ok_all(cs: Seq<CompV>)
    ensures
        comps_ok(cs) <==> forall|i: int| 0 <= i < cs.len() ==> node_ok(#[trigger] cs[i]),
    decreases cs.len(),
{
    if cs.len() > 0 {
        let d = cs.drop_last();
        lemma_comps_ok_all(d);
        if forall|i: int| 0 <= i < cs.len() ==> node_ok(#[trigger] cs[i]) {
            assert forall|i: int| 0 <= i < d.len() implies node_ok(#[trigger] d[i]) by {
                assert(d[i] == cs[i]);
            }
            assert(node_ok(cs[cs.len() - 1]));
        }
        if comps_ok(cs) {
            assert forall|i: int| 0 <= i < cs.len() implies node_ok(#[trigger] cs[i]) by {
                if i < d.len() {
                    assert(d[i] == cs[i]);
                }
            }
        }
    }
}

/// Setting a line that reads back keeps every line reading back.
pub proof fn lemma_set_line_ok(ls: Seq<LineV>, l: LineV)
    requires
        lines_ok(ls),
        line_ok(l),
    ensures
        lines_ok(set_line(ls, l)),
{
    let r = set_line(ls, l);
    crate::contentline::lemma_first_line(ls, l.name, 0);
    assert forall|i: int| 0 <= i < r.len() implies line_ok(#[trigger] r[i]) by {
        match first_line(ls, l.name, 0) {
            Some(j) => {
                if i != j {
                    assert(r[i] == ls[i]);
                }
            },
            None => {
                if i < ls.len() {
                    assert(r[i] == ls[i]);
                }
            },
        }
    }
}

/// Removing lines keeps every line reading back.
pub proof fn lemma_remove_named_ok(ls: Seq<LineV>, m: Seq<char>)
    requires
        lines_ok(ls),
    ensures
        lines_ok(remove_named(ls, m)),
{
    crate::lookup::lemma_remove_named_subset(ls, m);
    let r = remove_named(ls, m);
    assert forall|i: int| 0 <= i < r.len() implies line_ok(#[trigger] r[i]) by {
        assert(ls.contains(r[i]));
        let k = choose|k: int| 0 <= k < ls.len() && ls[k] == r[i];
        assert(line_ok(ls[k]));
    }
}

// ---------------------------------------------------------------------------
// Serializing: one folded line per logical line
// ---------------------------------------------------------------------------

pub open spec fn begin_line(name: Seq<char>) -> Seq<char> {
    begin_kw().push(':') + name
}

pub open spec fn end_line(name: Seq<char>) -> Seq<char> {
    end_kw().push(':') + name
}

pub open spec fn rendered(ls: Seq<LineV>) -> Seq<Seq<char>> {
    Seq::new(ls.len(), |i: int| render(ls[i]))
}

/// The logical lines that serializing `cs` writes, in order.
pub open spec fn logicals(cs: Seq<CompV>) -> Seq<Seq<char>>
    decreases cs,
{
    if cs.len() == 0 {
        Seq::empty()
    } else {
        let c = cs.last();
        logicals(cs.drop_last()) + seq![begin_line(c.name)] + rendered(c.lines) + logicals(c.children) + seq![
            end_line(c.name),
        ]
    }
}

/// Logical lines, each folded and CRLF-terminated, one after another.
pub open spec fn fold_all(ss: Seq<Seq<char>>) -> Seq<char>
    decreases ss.len(),
{
    if ss.len() == 0 {
        Seq::empty()
    } else {
        fold_all(ss.drop_last()) + fold_spec(ss.last())
    }
}

proof fn lemma_fold_all_concat(a: Seq<Seq<char>>, b: Seq<Seq<char>>)
    ensures
        fold_all(a + b) == fold_all(a) + fold_all(b),
    decreases b.len(),
{
    if b.len() == 0 {
        assert(a + b =~= a);
        assert(fold_all(a) + fold_all(b) =~= fold_all(a));
    } else {
        lemma_fold_all_concat(a, b.drop_last());
        assert((a + b).drop_last() =~= a + b.drop_last());
        assert((a + b).last() == b.last());
        assert(fold_all(a) + fold_all(b.drop_last()) + fold_spec(b.last()) =~= fold_all(a) + (fold_all(
            b.drop_last(),
        ) + fold_spec(b.last())));
    }
}

proof fn lemma_fold_all_one(s: Seq<char>)
    ensures
        fold_all(seq![s]) == fold_spec(s),
{
    assert(seq![s].drop_last() =~= Seq::<Seq<char>>::empty());
    assert(fold_all(Seq::<Seq<char>>::empty()) == Seq::<char>::empty());
    assert(Seq::<char>::empty() + fold_spec(s) =~= fold_spec(s));
}

proof fn lemma_ser_lines_fold(ls: Seq<LineV>)
    ensures
        ser_lines(ls) == fold_all(rendered(ls)),
    decreases ls.len(),
{
    if ls.len() > 0 {
        lemma_ser_lines_fold(ls.drop_last());
        assert(rendered(ls).drop_last() =~= rendered(ls.drop_last()));
        assert(rendered(ls).last() == render(ls.last()));
    } else {
        assert(rendered(ls) =~= Seq::<Seq<char>>::empty());
    }
}

proof fn lemma_ser_comps_fold(cs: Seq<CompV>)
    ensures
        ser_comps(cs) == fold_all(logicals(cs)),
    decreases cs,
{
    if cs.len() > 0 {
        let d = cs.drop_last();
        let c = cs.last();
        lemma_ser_comps_fold(d);
        lemma_ser_comps_fold(c.children);
        lemma_ser_lines_fold(c.lines);
        let l0 = logicals(d);
        let b = seq![begin_line(c.name)];
        let r = rendered(c.lines);
        let k = logicals(c.children);
        let e = seq![end_line(c.name)];
        lemma_fold_all_concat(l0, b);
        lemma_fold_all_concat(l0 + b, r);
        lemma_fold_all_concat(l0 + b + r, k);
        lemma_fold_all_concat(l0 + b + r + k, e);
        lemma_fold_all_one(begin_line(c.name));
        lemma_fold_all_one(end_line(c.name));
        assert(logicals(cs) == l0 + b + r + k + e);
    }
}

// ---------------------------------------------------------------------------
// Unfolding gives the logical lines back
// ---------------------------------------------------------------------------

/// A logical line that unfolding reads as a line of its own.
pub open spec fn starts_line(s: Seq<char>) -> bool {
    &&& s.len() > 0
    &&& s[0] != ' ' && s[0] != '\t'
    &&& lacks_char(s, '\n')
}

proof fn lemma_unfold_cont(out: Seq<Seq<char>>, t: Seq<char>, tail: Seq<char>)
    requires
        out.len() > 0,
        lacks_char(t, '\n'),
    ensures
        unfold_from(out, split_c(fold_rest(t, false) + tail, '\n')) == unfold_from(
            out.update(out.len() - 1, out.last() + t),
            split_c(tail, '\n'),
        ),
    decreases t.len(),
{
    lemma_fit_bounds(t, 74);
    if t.len() == 0 {
        assert(fold_rest(t, false) + tail =~= tail);
        assert(out.last() + t =~= out.last());
        assert(out.update(out.len() - 1, out.last() + t) =~= out);
    } else {
        let n = fit(t, 74);
        let chunk = t.take(n);
        let rest = t.skip(n);
        let a = seq![' '] + chunk + seq!['\r'];
        let more = fold_rest(rest, false) + tail;
        assert(fold_rest(t, false) + tail =~= a + seq!['\n'] + more);
        assert(lacks_char(a, '\n')) by {
            assert forall|k: int| 0 <= k < a.len() implies a[k] != '\n' by {
                if 1 <= k < a.len() - 1 {
                    assert(a[k] == t[k - 1]);
                }
            }
        }
        lemma_split_c_after(a, more, '\n');
        let raws = seq![a] + split_c(more, '\n');
        assert(raws[0] == a);
        assert(raws.drop_first() =~= split_c(more, '\n'));
        let line = strip_cr(a);
        assert(line =~= seq![' '] + chunk);
        assert(line[0] == ' ');
        assert(line.drop_first() =~= chunk);
        let out2 = out.update(out.len() - 1, out.last() + chunk);
        assert(unfold_step(out, a) == out2);
        assert(lacks_char(rest, '\n')) by {
            assert forall|k: int| 0 <= k < rest.len() implies rest[k] != '\n' by {
                assert(rest[k] == t[k + n]);
            }
        }
        lemma_unfold_cont(out2, rest, tail);
        assert(unfold_from(out, raws) == unfold_from(unfold_step(out, raws[0]), raws.drop_first()));
        assert(out2.last() + rest =~= out.last() + t);
        assert(out2.update(out2.len() - 1, out2.last() + rest) =~= out.update(out.len() - 1, out.last() + t));
    }
}

proof fn lemma_unfold_line(out: Seq<Seq<char>>, s: Seq<char>, tail: Seq<char>)
    requires
        starts_line(s),
    ensures
        unfold_from(out, split_c(fold_spec(s) + tail, '\n')) == unfold_from(out.push(s), split_c(tail, '\n')),
{
    lemma_fit_bounds(s, 75);
    let n = fit(s, 75);
    let first = s.take(n);
    let rest = s.skip(n);
    let a = first + seq!['\r'];
    let more = fold_rest(rest, false) + tail;
    assert(fold_spec(s) + tail =~= a + seq!['\n'] + more);
    assert(lacks_char(a, '\n')) by {
        assert forall|k: int| 0 <= k < a.len() implies a[k] != '\n' by {
            if k < a.len() - 1 {
                assert(a[k] == s[k]);
            }
        }
    }
    lemma_split_c_after(a, more, '\n');
    let raws = seq![a] + split_c(more, '\n');
    assert(raws[0] == a);
    assert(raws.drop_first() =~= split_c(more, '\n'));
    assert(strip_cr(a) =~= first);
    assert(first[0] == s[0]);
    let out1 = out.push(first);
    assert(unfold_step(out, a) == out1);
    assert(lacks_char(rest, '\n')) by {
        assert forall|k: int| 0 <= k < rest.len() implies rest[k] != '\n' by {
            assert(rest[k] == s[k + n]);
        }
    }
    lemma_unfold_cont(out1, rest, tail);
    assert(unfold_from(out, raws) == unfold_from(unfold_step(out, raws[0]), raws.drop_first()));
    assert(first + rest =~= s);
    assert(out1.update(out1.len() - 1, out1.last() + rest) =~= out.push(s));
}

proof fn lemma_unfold_all(out: Seq<Seq<char>>, ss: Seq<Seq<char>>, tail: Seq<char>)
    requires
        forall|i: int| 0 <= i < ss.len() ==> starts_line(#[trigger] ss[i]),
    ensures
        unfold_from(out, split_c(fold_all(ss) + tail, '\n')) == unfold_from(out + ss, split_c(tail, '\n')),
    decreases ss.len(),
{
    if ss.len() == 0 {
        assert(fold_all(ss) + tail =~= tail);
        assert(out + ss =~= out);
    } else {
        let s0 = ss[0];
        let rest = ss.drop_first();
        assert(ss =~= seq![s0] + rest);
        lemma_fold_all_concat(seq![s0], rest);
        lemma_fold_all_one(s0);
        assert(fold_all(ss) + tail =~= fold_spec(s0) + (fold_all(rest) + tail));
        lemma_unfold_line(out, s0, fold_all(rest) + tail);
        assert forall|i: int| 0 <= i < rest.len() implies starts_line(#[trigger] rest[i]) by {
            assert(rest[i] == ss[i + 1]);
        }
        lemma_unfold_all(out.push(s0), rest, tail);
        assert(out.push(s0) + rest =~= out + ss);
    }
}

/// Unfolding the folded lines gives them back, and at most one empty line
/// after them (the one the final CRLF ends).
proof fn lemma_unfold_doc(ss: Seq<Seq<char>>)
    requires
        forall|i: int| 0 <= i < ss.len() ==> starts_line(#[trigger] ss[i]),
    ensures
        unfold_spec(fold_all(ss)) == unfold_step(ss, Seq::<char>::empty()),
{
    let text = fold_all(ss);
    lemma_unfold_lines_from(split_c(text, '\n'));
    assert(text + Seq::<char>::empty() =~= text);
    lemma_unfold_all(Seq::empty(), ss, Seq::empty());
    assert(Seq::<Seq<char>>::empty() + ss =~= ss);
    let raws = split_c(Seq::<char>::empty(), '\n');
    assert(raws =~= seq![Seq::<char>::empty()]);
    assert(raws.drop_first() =~= Seq::<Seq<char>>::empty());
    assert(strip_cr(Seq::<char>::empty()) =~= Seq::<char>::empty());
    assert(unfold_from(ss, raws) == unfold_from(unfold_step(ss, raws[0]), raws.drop_first()));
}

proof fn lemma_all_start(a: Seq<Seq<char>>, b: Seq<Seq<char>>)
    requires
        forall|i: int| 0 <= i < a.len() ==> starts_line(#[trigger] a[i]),
        forall|i: int| 0 <= i < b.len() ==> starts_line(#[trigger] b[i]),
    ensures
        forall|i: int| 0 <= i < (a + b).len() ==> starts_line(#[trigger] (a + b)[i]),
{
    assert forall|i: int| 0 <= i < (a + b).len() implies starts_line(#[trigger] (a + b)[i]) by {
        if i < a.len() {
            assert((a + b)[i] == a[i]);
        } else {
            assert((a + b)[i] == b[i - a.len()]);
        }
    }
}

proof fn lemma_kw_line_starts(kw: Seq<char>, name: Seq<char>)
    requires
        kw.len() > 0,
        kw[0] != ' ' && kw[0] != '\t',
        lacks_char(kw, '\n'),
        lacks_char(name, '\n'),
    ensures
        starts_line(kw.push(':') + name),
{
    let s = kw.push(':') + name;
    assert(s[0] == kw[0]);
    assert forall|k: int| 0 <= k < s.len() implies s[k] != '\n' by {
        if k < kw.len() {
            assert(s[k] == kw[k]);
        } else if k > kw.len() {
            assert(s[k] == name[k - kw.len() - 1]);
        }
    }
}

proof fn lemma_kw_facts()
    ensures
        begin_kw().len() == 5,
        end_kw().len() == 3,
        forall|k: int| 0 <= k < 5 ==> begin_kw()[k] != '"' && begin_kw()[k] != ';' && begin_kw()[k] != ':'
            && begin_kw()[k] != '\n' && begin_kw()[k] != ' ' && begin_kw()[k] != '\t',
        forall|k: int| 0 <= k < 3 ==> end_kw()[k] != '"' && end_kw()[k] != ';' && end_kw()[k] != ':'
            && end_kw()[k] != '\n' && end_kw()[k] != ' ' && end_kw()[k] != '\t',
{
    assert forall|k: int| 0 <= k < 5 implies begin_kw()[k] != '"' && begin_kw()[k] != ';' && begin_kw()[k] != ':'
        && begin_kw()[k] != '\n' && begin_kw()[k] != ' ' && begin_kw()[k] != '\t' by {
        if k == 0 {
        } else if k == 1 {
        } else if k == 2 {
        } else if k == 3 {
        } else {
        }
    }
    assert forall|k: int| 0 <= k < 3 implies end_kw()[k] != '"' && end_kw()[k] != ';' && end_kw()[k] != ':'
        && end_kw()[k] != '\n' && end_kw()[k] != ' ' && end_kw()[k] != '\t' by {
        if k == 0 {
        } else if k == 1 {
        } else {
        }
    }
}

proof fn lemma_logicals_start(cs: Seq<CompV>)
    requires
        comps_ok(cs),
    ensures
        forall|i: int| 0 <= i < logicals(cs).len() ==> starts_line(#[trigger] logicals(cs)[i]),
    decreases cs,
{
    if cs.len() > 0 {
        let d = cs.drop_last();
        let c = cs.last();
        lemma_logicals_start(d);
        lemma_logicals_start(c.children);
        lemma_kw_facts();
        assert(lacks_char(begin_kw(), '\n'));
        assert(lacks_char(end_kw(), '\n'));
        lemma_kw_line_starts(begin_kw(), c.name);
        lemma_kw_line_starts(end_kw(), c.name);
        let b = seq![begin_line(c.name)];
        let r = rendered(c.lines);
        let e = seq![end_line(c.name)];
        assert(forall|i: int| 0 <= i < b.len() ==> starts_line(#[trigger] b[i]));
        assert(forall|i: int| 0 <= i < e.len() ==> starts_line(#[trigger] e[i]));
        assert forall|i: int| 0 <= i < r.len() implies starts_line(#[trigger] r[i]) by {
            assert(line_ok(c.lines[i]));
            assert(r[i] == render(c.lines[i]));
        }
        let l0 = logicals(d);
        lemma_all_start(l0, b);
        lemma_all_start(l0 + b, r);
        lemma_all_start(l0 + b + r, logicals(c.children));
        lemma_all_start(l0 + b + r + logicals(c.children), e);
        assert(logicals(cs) == l0 + b + r + logicals(c.children) + e);
    }
}

// ---------------------------------------------------------------------------
// Parsing rebuilds the tree
// ---------------------------------------------------------------------------

/// Feeding logical lines to the parser, one after another from the front.
pub open spec fn parse_from(st: ParseState, ls: Seq<Seq<char>>) -> ParseState
    decreases ls.len(),
{
    if ls.len() == 0 {
        st
    } else {
        parse_from(parse_step(st, ls[0]), ls.drop_first())
    }
}

pub open spec fn start_state() -> ParseState {
    ParseState { roots: Seq::empty(), stack: Seq::empty() }
}

/// A finished component added where the parser puts it: into the innermost
/// open component, or to the roots when none is open.
pub open spec fn close_into(st: ParseState, c: CompV) -> ParseState {
    if st.stack.len() == 0 {
        ParseState { roots: st.roots.push(c), stack: st.stack }
    } else {
        let p = st.stack.last();
        ParseState { stack: st.stack.update(st.stack.len() - 1, CompV { children: p.children.push(c), ..p }), ..st }
    }
}

pub open spec fn close_all(st: ParseState, cs: Seq<CompV>) -> ParseState
    decreases cs.len(),
{
    if cs.len() == 0 {
        st
    } else {
        close_into(close_all(st, cs.drop_last()), cs.last())
    }
}

proof fn lemma_parse_from_push(st: ParseState, ls: Seq<Seq<char>>, l: Seq<char>)
    ensures
        parse_from(st, ls.push(l)) == parse_step(parse_from(st, ls), l),
    decreases ls.len(),
{
    if ls.len() == 0 {
        assert(ls.push(l).drop_first() =~= Seq::<Seq<char>>::empty());
        assert(ls.push(l)[0] == l);
        assert(parse_from(parse_step(st, l), Seq::<Seq<char>>::empty()) == parse_step(st, l));
    } else {
        assert(ls.push(l).drop_first() =~= ls.drop_first().push(l));
        assert(ls.push(l)[0] == ls[0]);
        lemma_parse_from_push(parse_step(st, ls[0]), ls.drop_first(), l);
    }
}

proof fn lemma_parse_lines_from(ls: Seq<Seq<char>>)
    ensures
        parse_lines(ls) == parse_from(start_state(), ls),
    decreases ls.len(),
{
    if ls.len() > 0 {
        lemma_parse_lines_from(ls.drop_last());
        lemma_parse_from_push(start_state(), ls.drop_last(), ls.last());
        assert(ls.drop_last().push(ls.last()) =~= ls);
    }
}

proof fn lemma_parse_from_concat(st: ParseState, a: Seq<Seq<char>>, b: Seq<Seq<char>>)
    ensures
        parse_from(st, a + b) == parse_from(parse_from(st, a), b),
    decreases a.len(),
{
    if a.len() == 0 {
        assert(a + b =~= b);
    } else {
        assert((a + b)[0] == a[0]);
        assert((a + b).drop_first() =~= a.drop_first() + b);
        lemma_parse_from_concat(parse_step(st, a[0]), a.drop_first(), b);
    }
}

proof fn lemma_parse_from_one(st: ParseState, l: Seq<char>)
    ensures
        parse_from(st, seq![l]) == parse_step(st, l),
{
    assert(seq![l].drop_first() =~= Seq::<Seq<char>>::empty());
    assert(parse_from(parse_step(st, l), Seq::<Seq<char>>::empty()) == parse_step(st, l));
}

proof fn lemma_scan_skip(l: Seq<char>, k: int, j: int, q: bool, semi: Option<int>)
    requires
        0 <= k <= j <= l.len(),
        forall|x: int| k <= x < j ==> l[x] != '"' && l[x] != ';' && l[x] != ':',
    ensures
        scan(l, k, q, semi) == scan(l, j, q, semi),
    decreases j - k,
{
    if k < j {
        lemma_scan_skip(l, k + 1, j, q, semi);
    }
}

/// A `BEGIN:` or `END:` line splits into its keyword and the name after it.
proof fn lemma_split_kw(kw: Seq<char>, name: Seq<char>)
    requires
        forall|x: int| 0 <= x < kw.len() ==> kw[x] != '"' && kw[x] != ';' && kw[x] != ':',
    ensures
        split_line_spec(kw.push(':') + name) == Some((kw, Seq::<char>::empty(), name)),
{
    let l = kw.push(':') + name;
    let c = kw.len() as int;
    assert forall|x: int| 0 <= x < c implies l[x] != '"' && l[x] != ';' && l[x] != ':' by {
        assert(l[x] == kw[x]);
    }
    lemma_scan_skip(l, 0, c, false, None);
    assert(l[c] == ':');
    assert(scan(l, c, false, None) == Some((c, None::<int>)));
    assert(l.take(c) =~= kw);
    assert(l.skip(c + 1) =~= name);
}

proof fn lemma_parse_lines_into_top(st: ParseState, ls: Seq<LineV>)
    requires
        st.stack.len() > 0,
        lines_ok(ls),
    ensures
        parse_from(st, rendered(ls)) == (ParseState {
            stack: st.stack.update(
                st.stack.len() - 1,
                CompV { lines: st.stack.last().lines + ls, ..st.stack.last() },
            ),
            ..st
        }),
    decreases ls.len(),
{
    let top = st.stack.last();
    if ls.len() == 0 {
        assert(rendered(ls) =~= Seq::<Seq<char>>::empty());
        assert(top.lines + ls =~= top.lines);
        assert(st.stack.update(st.stack.len() - 1, CompV { lines: top.lines + ls, ..top }) =~= st.stack);
    } else {
        let d = ls.drop_last();
        let l = ls.last();
        assert(lines_ok(d)) by {
            assert forall|i: int| 0 <= i < d.len() implies line_ok(#[trigger] d[i]) by {
                assert(d[i] == ls[i]);
            }
        }
        lemma_parse_lines_into_top(st, d);
        assert(rendered(ls) =~= rendered(d).push(render(l)));
        lemma_parse_from_push(st, rendered(d), render(l));
        let st1 = parse_from(st, rendered(d));
        assert(line_ok(ls[ls.len() - 1]));
        let top1 = st1.stack.last();
        assert(top1 == CompV { lines: top.lines + d, ..top });
        assert(render(l).len() > 0);
        assert(LineV { name: l.name, params: l.params, value: l.value } == l);
        assert((top.lines + d).push(l) =~= top.lines + ls);
        assert(st1.stack.update(st1.stack.len() - 1, CompV { lines: top1.lines.push(l), ..top1 }) =~= st.stack.update(
            st.stack.len() - 1,
            CompV { lines: top.lines + ls, ..top },
        ));
    }
}

proof fn lemma_close_all_top(st: ParseState, cs: Seq<CompV>)
    requires
        st.stack.len() > 0,
    ensures
        close_all(st, cs) == (ParseState {
            stack: st.stack.update(
                st.stack.len() - 1,
                CompV { children: st.stack.last().children + cs, ..st.stack.last() },
            ),
            ..st
        }),
    decreases cs.len(),
{
    let top = st.stack.last();
    if cs.len() == 0 {
        assert(top.children + cs =~= top.children);
        assert(st.stack.update(st.stack.len() - 1, CompV { children: top.children + cs, ..top }) =~= st.stack);
    } else {
        let d = cs.drop_last();
        lemma_close_all_top(st, d);
        let st1 = close_all(st, d);
        let top1 = st1.stack.last();
        assert(top1 == CompV { children: top.children + d, ..top });
        assert((top.children + d).push(cs.last()) =~= top.children + cs);
        assert(st1.stack.update(st1.stack.len() - 1, CompV { children: top1.children.push(cs.last()), ..top1 })
            =~= st.stack.update(st.stack.len() - 1, CompV { children: top.children + cs, ..top }));
    }
}

proof fn lemma_close_all_roots(st: ParseState, cs: Seq<CompV>)
    requires
        st.stack.len() == 0,
    ensures
        close_all(st, cs) == (ParseState { roots: st.roots + cs, stack: st.stack }),
    decreases cs.len(),
{
    if cs.len() == 0 {
        assert(st.roots + cs =~= st.roots);
    } else {
        lemma_close_all_roots(st, cs.drop_last());
        assert((st.roots + cs.drop_last()).push(cs.last()) =~= st.roots + cs);
    }
}

proof fn lemma_parse_comps(st: ParseState, cs: Seq<CompV>)
    requires
        comps_ok(cs),
    ensures
        parse_from(st, logicals(cs)) == close_all(st, cs),
    decreases cs,
{
    if cs.len() == 0 {
        assert(logicals(cs) =~= Seq::<Seq<char>>::empty());
    } else {
        let d = cs.drop_last();
        let c = cs.last();
        lemma_parse_comps(st, d);
        let s1 = close_all(st, d);
        let l0 = logicals(d);
        let b = seq![begin_line(c.name)];
        let r = rendered(c.lines);
        let k = logicals(c.children);
        let e = seq![end_line(c.name)];
        assert(logicals(cs) == l0 + b + r + k + e);
        lemma_parse_from_concat(st, l0 + b + r + k, e);
        lemma_parse_from_concat(st, l0 + b + r, k);
        lemma_parse_from_concat(st, l0 + b, r);
        lemma_parse_from_concat(st, l0, b);
        lemma_kw_facts();
        // BEGIN opens the component.
        lemma_parse_from_one(s1, begin_line(c.name));
        lemma_split_kw(begin_kw(), c.name);
        let empty_comp = CompV { name: c.name, lines: Seq::empty(), children: Seq::empty() };
        let s2 = ParseState { stack: s1.stack.push(empty_comp), ..s1 };
        assert(eq_ic(begin_kw(), begin_kw()));
        assert(begin_line(c.name).len() > 0);
        assert(parse_step(s1, begin_line(c.name)) == s2);
        // Its lines go into it.
        lemma_parse_lines_into_top(s2, c.lines);
        assert(s2.stack.last() == empty_comp);
        assert(empty_comp.lines + c.lines =~= c.lines);
        let with_lines = CompV { name: c.name, lines: c.lines, children: Seq::empty() };
        assert(s2.stack.update(s2.stack.len() - 1, with_lines) =~= s1.stack.push(with_lines));
        let s3 = ParseState { stack: s1.stack.push(with_lines), ..s1 };
        assert(parse_from(s2, r) == s3);
        // Then its children.
        lemma_parse_comps(s3, c.children);
        lemma_close_all_top(s3, c.children);
        assert(with_lines.children + c.children =~= c.children);
        let whole = CompV { name: c.name, lines: c.lines, children: c.children };
        assert(whole == c);
        assert(s3.stack.update(s3.stack.len() - 1, whole) =~= s1.stack.push(c));
        let s4 = ParseState { stack: s1.stack.push(c), ..s1 };
        assert(parse_from(s3, k) == s4);
        // END closes it into its parent.
        lemma_parse_from_one(s4, end_line(c.name));
        lemma_split_kw(end_kw(), c.name);
        assert(end_line(c.name).len() > 0);
        assert(!eq_ic(end_kw(), begin_kw())) by {
            assert(crate::text::lower_seq(end_kw()).len() != crate::text::lower_seq(begin_kw()).len());
        }
        assert(eq_ic(end_kw(), end_kw()));
        assert(s4.stack.drop_last() =~= s1.stack);
        assert(s4.stack.last() == c);
        assert(parse_step(s4, end_line(c.name)) == close_into(s1, c));
    }
}

// ---------------------------------------------------------------------------
// The law
// ---------------------------------------------------------------------------

/// The codec is lossless: parsing the text that serializing writes gives
/// the same components back, with every line, parameter text, value and
/// child in place, for every tree whose component names are trimmed and
/// whose lines read back as themselves (`comps_ok`).
pub proof fn law_parse_serialize(cs: Seq<CompV>)
    requires
        comps_ok(cs),
    ensures
        parse_spec(ser_comps(cs)) == cs,
{
    lemma_ser_comps_fold(cs);
    let ss = logicals(cs);
    lemma_logicals_start(cs);
    lemma_unfold_doc(ss);
    let ls = unfold_step(ss, Seq::<char>::empty());
    lemma_parse_lines_from(ls);
    lemma_parse_lines_from(ss);
    if ss.len() > 0 {
        assert(starts_line(ss[ss.len() - 1]));
        assert(strip_cr(Seq::<char>::empty()) =~= Seq::<char>::empty());
        assert(ls == ss.push(Seq::<char>::empty()));
        lemma_parse_from_push(start_state(), ss, Seq::<char>::empty());
    }
    assert(parse_lines(ls) == parse_lines(ss));
    lemma_parse_comps(start_state(), cs);
    lemma_close_all_roots(start_state(), cs);
    assert(Seq::<CompV>::empty() + cs =~= cs);
}

// ---------------------------------------------------------------------------
// The documented shape of a tree
// ---------------------------------------------------------------------------

/// A name as content lines write them: one or more ASCII letters, digits
/// and dashes.
pub open spec fn wire_name(s: Seq<char>) -> bool {
    &&& s.len() > 0
    &&& forall|k: int|
        0 <= k < s.len() ==> ('A' <= #[trigger] s[k] <= 'Z' || 'a' <= s[k] <= 'z' || '0' <= s[k] <= '9' || s[k]
            == '-')
}

/// A line of the documented shape: a wire name other than BEGIN or END (in
/// any case); parameter text that is empty, or starts with `;`, closes
/// every quote it opens and has a `:` only inside quotes; and no carriage
/// return or line feed in the parameters or the value.
pub open spec fn wire_line(l: LineV) -> bool {
    &&& wire_name(l.name)
    &&& !eq_ic(l.name, begin_kw())
    &&& !eq_ic(l.name, end_kw())
    &&& (l.params.len() == 0 || (l.params[0] == ';' && quiet(l.params.drop_first(), false)))
    &&& lacks_char(l.params, '\n') && lacks_char(l.params, '\r')
    &&& lacks_char(l.value, '\n') && lacks_char(l.value, '\r')
}

/// A tree of the documented shape: every component named by a wire name,
/// every line of the documented shape, all the way down.
pub open spec fn wire_comps(cs: Seq<CompV>) -> bool
    decreases cs,
{
    if cs.len() == 0 {
        true
    } else {
        let c = cs.last();
        &&& wire_comps(cs.drop_last())
        &&& wire_name(c.name)
        &&& forall|i: int| 0 <= i < c.lines.len() ==> wire_line(#[trigger] c.lines[i])
        &&& wire_comps(c.children)
    }
}

proof fn lemma_wire_name(s: Seq<char>)
    requires
        wire_name(s),
    ensures
        trim_ws(s) == s,
        lacks_char(s, '\n'),
        s[0] != ' ' && s[0] != '\t',
        forall|k: int| 0 <= k < s.len() ==> s[k] != '"' && s[k] != ';' && s[k] != ':',
{
    let a = s[0];
    let z = s.last();
    assert('A' <= a <= 'Z' || 'a' <= a <= 'z' || '0' <= a <= '9' || a == '-');
    assert('A' <= z <= 'Z' || 'a' <= z <= 'z' || '0' <= z <= '9' || z == '-');
    assert(trim_start_ws(s) == s);
    assert(trim_end_ws(s) == s);
    assert forall|k: int| 0 <= k < s.len() implies s[k] != '\n' && s[k] != '"' && s[k] != ';' && s[k] != ':' by {
        assert('A' <= s[k] <= 'Z' || 'a' <= s[k] <= 'z' || '0' <= s[k] <= '9' || s[k] == '-');
    }
}

proof fn lemma_wire_comps_ok(cs: Seq<CompV>)
    requires
        wire_comps(cs),
    ensures
        comps_ok(cs),
    decreases cs,
{
    if cs.len() > 0 {
        let c = cs.last();
        lemma_wire_comps_ok(cs.drop_last());
        lemma_wire_comps_ok(c.children);
        lemma_wire_name(c.name);
        assert forall|i: int| 0 <= i < c.lines.len() implies line_ok(#[trigger] c.lines[i]) by {
            let l = c.lines[i];
            assert(wire_line(l));
            lemma_wire_name(l.name);
            assert(simple_line(l));
            lemma_simple_line_ok(l);
        }
    }
}

/// Serializing then parsing never loses data, for every tree of the
/// documented shape: names of letters, digits and dashes, no line named
/// BEGIN or END, parameter text empty or starting with `;` with its colons
/// inside closed quotes, and no carriage return or line feed in parameters
/// or values. The same components come back, with their lines (name,
/// parameters, value) and children in order.
pub proof fn law_parse_serialize_wire(cs: Seq<CompV>)
    requires
        wire_comps(cs),
    ensures
        parse_spec(ser_comps(cs)) == cs,
{
    lemma_wire_comps_ok(cs);
    law_parse_serialize(cs);
}

} // verus!
