//! A tiny, lossless codec for the iCalendar (RFC 5545) / vCard (RFC 6350)
//! content-line grammar. Both formats share the exact same line syntax:
//!
//! ```text
//! name *(";" param-name "=" param-value) ":" value CRLF
//! ```
//!
//! plus *line folding* (a CRLF followed by a space/tab continues the previous
//! line). A document is parsed into a tree of components (`BEGIN:X … END:X`),
//! each holding its content lines **verbatim** (params + value kept as raw
//! strings), so editing one property rewrites only that line and everything
//! else — including properties the client does not understand — is re-emitted
//! unchanged.

use vstd::prelude::*;
use crate::text::{
    chars_of, copy_str, eq_ic, eq_ic_str, eq_ic_vec, push_char, push_range, string_of, trim_bounds, trim_c,
    trim_ws,
};

verus! {

/// One `name;params:value` line, kept close to its on-the-wire form.
pub struct Line {
    pub name: String,
    /// Everything between the name and the `:` — the raw parameter text,
    /// including each leading `;` (empty when there are no params).
    pub params: String,
    /// The raw (still-escaped for TEXT values) value, after unfolding.
    pub value: String,
}

/// Mathematical value of a [`Line`].
pub struct LineV {
    pub name: Seq<char>,
    pub params: Seq<char>,
    pub value: Seq<char>,
}

impl View for Line {
    type V = LineV;

    open spec fn view(&self) -> LineV {
        LineV { name: self.name@, params: self.params@, value: self.value@ }
    }
}

/// A `BEGIN:NAME … END:NAME` block: its own lines plus nested components.
pub struct Component {
    pub name: String,
    pub lines: Vec<Line>,
    pub children: Vec<Component>,
}

/// Mathematical value of a [`Component`].
pub struct CompV {
    pub name: Seq<char>,
    pub lines: Seq<LineV>,
    pub children: Seq<CompV>,
}

pub open spec fn lines_view(ls: Seq<Line>) -> Seq<LineV> {
    Seq::new(ls.len(), |i: int| ls[i]@)
}

pub open spec fn comp_view(c: Component) -> CompV
    decreases c,
{
    CompV {
        name: c.name@,
        lines: lines_view(c.lines@),
        children: Seq::new(
            c.children@.len(),
            |i: int|
                if 0 <= i < c.children@.len() {
                    comp_view(c.children@[i])
                } else {
                    arbitrary()
                },
        ),
    }
}

pub open spec fn comps_view(cs: Seq<Component>) -> Seq<CompV> {
    Seq::new(cs.len(), |i: int| comp_view(cs[i]))
}

impl View for Component {
    type V = CompV;

    open spec fn view(&self) -> CompV {
        comp_view(*self)
    }
}

// ---------------------------------------------------------------------------
// Splitting on a character
// ---------------------------------------------------------------------------

/// `str::split(c)`: the pieces between occurrences of `c` (always at least one).
pub open spec fn split_c(s: Seq<char>, c: char) -> Seq<Seq<char>>
    decreases s.len(),
{
    if s.len() == 0 {
        seq![Seq::empty()]
    } else {
        let p = split_c(s.drop_last(), c);
        if s.last() == c {
            p.push(Seq::empty())
        } else {
            p.update(p.len() - 1, p.last().push(s.last()))
        }
    }
}

pub proof fn lemma_split_c_nonempty(s: Seq<char>, c: char)
    ensures
        split_c(s, c).len() >= 1,
    decreases s.len(),
{
    if s.len() > 0 {
        lemma_split_c_nonempty(s.drop_last(), c);
    }
}

/// Bounds of the `c`-separated pieces of `v`, as `(start, end)` pairs.
pub fn split_ranges(v: &Vec<char>, c: char) -> (r: Vec<(usize, usize)>)
    ensures
        r@.len() == split_c(v@, c).len(),
        forall|i: int| #![trigger r@[i]] 0 <= i < r@.len() ==> r@[i].0 <= r@[i].1 && r@[i].1 <= v@.len()
            && v@.subrange(r@[i].0 as int, r@[i].1 as int) == split_c(v@, c)[i],
{
    let mut r: Vec<(usize, usize)> = Vec::new();
    let mut start: usize = 0;
    let mut k: usize = 0;
    while k < v.len()
        invariant
            0 <= start <= k <= v@.len(),
            r@.len() + 1 == split_c(v@.take(k as int), c).len(),
            forall|i: int| #![trigger r@[i]] 0 <= i < r@.len() ==> r@[i].0 <= r@[i].1 && r@[i].1 <= k
                && v@.subrange(r@[i].0 as int, r@[i].1 as int) == split_c(v@.take(k as int), c)[i],
            v@.subrange(start as int, k as int) == split_c(v@.take(k as int), c).last(),
        decreases v.len() - k,
    {
        let ghost p = split_c(v@.take(k as int), c);
        let ghost old_r = r@;
        proof {
            lemma_split_c_nonempty(v@.take(k as int), c);
            assert(v@.take(k + 1).drop_last() =~= v@.take(k as int));
            assert(v@.take(k + 1).last() == v@[k as int]);
        }
        if v[k] == c {
            r.push((start, k));
            proof {
                let np = split_c(v@.take(k + 1), c);
                assert(np == p.push(Seq::empty()));
                assert forall|i: int| #![trigger r@[i]] 0 <= i < r@.len() implies r@[i].0 <= r@[i].1 && r@[i].1 <= k + 1
                    && v@.subrange(r@[i].0 as int, r@[i].1 as int) == np[i] by {
                    if i < old_r.len() {
                        assert(r@[i] == old_r[i]);
                        assert(np[i] == p[i]);
                    } else {
                        assert(np[i] == p.last());
                    }
                }
                assert(v@.subrange(k + 1, k + 1) =~= Seq::<char>::empty());
            }
            start = k + 1;
        } else {
            proof {
                let np = split_c(v@.take(k + 1), c);
                assert(np == p.update(p.len() - 1, p.last().push(v@[k as int])));
                assert(v@.subrange(start as int, k + 1) =~= v@.subrange(start as int, k as int).push(v@[k as int]));
                assert forall|i: int| #![trigger r@[i]] 0 <= i < r@.len() implies r@[i].0 <= r@[i].1 && r@[i].1 <= k + 1
                    && v@.subrange(r@[i].0 as int, r@[i].1 as int) == np[i] by {
                    assert(np[i] == p[i]);
                }
            }
        }
        k = k + 1;
    }
    r.push((start, k));
    proof {
        assert(v@.take(v@.len() as int) =~= v@);
    }
    r
}

// ---------------------------------------------------------------------------
// Line
// ---------------------------------------------------------------------------

/// Value of parameter `name` among `parts` (the `;`-separated pieces of the
/// parameter text), scanning from piece `i`: the first non-blank piece whose
/// key matches case-insensitively gives its value, trimmed and with `"`
/// stripped; pieces without `=` are skipped, and nothing is found only when
/// no piece has that key.
pub open spec fn param_from(parts: Seq<Seq<char>>, i: int, name: Seq<char>) -> Option<Seq<char>>
    decreases parts.len() - i,
{
    if i < 0 || i >= parts.len() {
        None
    } else {
        let part = trim_ws(parts[i]);
        if part.len() == 0 {
            param_from(parts, i + 1, name)
        } else {
            match crate::text::find(part, seq!['=']) {
                None => param_from(parts, i + 1, name),
                Some(e) => if eq_ic(trim_ws(part.take(e)), name) {
                    Some(trim_c(trim_ws(part.skip(e + 1)), '"'))
                } else {
                    param_from(parts, i + 1, name)
                },
            }
        }
    }
}

pub open spec fn param_spec(params: Seq<char>, name: Seq<char>) -> Option<Seq<char>> {
    param_from(split_c(params, ';'), 0, name)
}

impl Line {
    /// A plain line with no parameters.
    pub fn new(name: &str, value: &str) -> (l: Line)
        ensures
            l@ == (LineV { name: name@, params: Seq::empty(), value: value@ }),
    {
        Line { name: copy_str(name), params: String::new(), value: copy_str(value) }
    }

    /// A line carrying raw parameter text (which starts with `;`, e.g. `;VALUE=DATE`).
    pub fn with_params(name: &str, params: &str, value: &str) -> (l: Line)
        ensures
            l@ == (LineV { name: name@, params: params@, value: value@ }),
    {
        Line { name: copy_str(name), params: copy_str(params), value: copy_str(value) }
    }

    pub fn duplicate(&self) -> (l: Line)
        ensures
            l@ == self@,
    {
        Line { name: self.name.clone(), params: self.params.clone(), value: self.value.clone() }
    }

    /// Case-insensitive property-name match (iCal/vCard names are case-insensitive).
    pub fn is(&self, name: &str) -> (b: bool)
        ensures
            b == eq_ic(self.name@, name@),
    {
        eq_ic_str(self.name.as_str(), name)
    }

    /// Value of the first parameter named `name` (case-insensitive), trimmed
    /// and unquoted; `None` only when no parameter has that name.
    pub fn param(&self, name: &str) -> (r: Option<String>)
        ensures
            crate::text::opt_view(r) == param_spec(self.params@, name@),
    {
        let pv = chars_of(self.params.as_str());
        let nv = chars_of(name);
        let parts = split_ranges(&pv, ';');
        let eq = vec!['='];
        proof {
            assert(eq@ =~= seq!['=']);
        }
        let mut i: usize = 0;
        while i < parts.len()
            invariant
                pv@ == self.params@,
                nv@ == name@,
                eq@ == seq!['='],
                parts@.len() == split_c(pv@, ';').len(),
                forall|x: int| #![trigger parts@[x]] 0 <= x < parts@.len() ==> parts@[x].0 <= parts@[x].1 && parts@[x].1 <= pv@.len()
                    && pv@.subrange(parts@[x].0 as int, parts@[x].1 as int) == split_c(pv@, ';')[x],
                0 <= i <= parts@.len(),
                param_spec(self.params@, name@) == param_from(split_c(pv@, ';'), i as int, name@),
            decreases parts.len() - i,
        {
            let (lo, hi) = parts[i];
            let (a, b) = trim_bounds(&pv, lo, hi);
            if a == b {
                i = i + 1;
                continue;
            }
            let part = slice_vec(&pv, a, b);
            match crate::text::find_exec(&part, &eq, 0) {
                None => {
                    i = i + 1;
                },
                Some(e) => {
                    proof {
                        crate::text::lemma_find_from(part@, eq@, 0);
                    }
                    let (ka, kb) = trim_bounds(&part, 0, e);
                    let key = slice_vec(&part, ka, kb);
                    if eq_ic_vec(&key, &nv) {
                        let (va, vb) = trim_bounds(&part, e + 1, part.len());
                        let a2 = crate::text::trim_start_bound(&part, va, vb, '"');
                        let b2 = crate::text::trim_end_bound(&part, a2, vb, '"');
                        let out = string_of(&part, a2, b2);
                        proof {
                            assert(part@.take(e as int) =~= part@.subrange(0, e as int));
                            assert(part@.skip(e + 1) =~= part@.subrange(e + 1, part@.len() as int));
                        }
                        return Some(out);
                    }
                    proof {
                        assert(part@.take(e as int) =~= part@.subrange(0, e as int));
                    }
                    i = i + 1;
                },
            }
        }
        None
    }
}

/// A copy of `v[lo..hi]`.
pub fn slice_vec(v: &Vec<char>, lo: usize, hi: usize) -> (r: Vec<char>)
    requires
        lo <= hi <= v.len(),
    ensures
        r@ == v@.subrange(lo as int, hi as int),
{
    let mut r: Vec<char> = Vec::new();
    let mut i = lo;
    while i < hi
        invariant
            lo <= i <= hi <= v.len(),
            r@ == v@.subrange(lo as int, i as int),
        decreases hi - i,
    {
        r.push(v[i]);
        proof {
            assert(v@.subrange(lo as int, i + 1) =~= v@.subrange(lo as int, i as int).push(v@[i as int]));
        }
        i = i + 1;
    }
    r
}

} // verus!

verus! {

// ---------------------------------------------------------------------------
// Component
// ---------------------------------------------------------------------------

/// Index of the first line at or after `from` whose name matches `name`
/// case-insensitively.
pub open spec fn first_line(ls: Seq<LineV>, name: Seq<char>, from: int) -> Option<int>
    decreases ls.len() - from,
{
    if from < 0 || from >= ls.len() {
        None
    } else if eq_ic(ls[from].name, name) {
        Some(from)
    } else {
        first_line(ls, name, from + 1)
    }
}

pub proof fn lemma_first_line(ls: Seq<LineV>, name: Seq<char>, from: int)
    ensures
        first_line(ls, name, from) matches Some(i) ==> 0 <= from <= i < ls.len() && eq_ic(ls[i].name, name)
            && forall|k: int| from <= k < i ==> !eq_ic(ls[k].name, name),
        0 <= from && first_line(ls, name, from) is None ==> forall|k: int| from <= k < ls.len() ==> !eq_ic(ls[k].name, name),
    decreases ls.len() - from,
{
    if from < 0 || from >= ls.len() {
    } else if eq_ic(ls[from].name, name) {
    } else {
        lemma_first_line(ls, name, from + 1);
    }
}

/// Index of the first child at or after `from` whose name matches `name`
/// case-insensitively.
pub open spec fn first_child(cs: Seq<CompV>, name: Seq<char>, from: int) -> Option<int>
    decreases cs.len() - from,
{
    if from < 0 || from >= cs.len() {
        None
    } else if eq_ic(cs[from].name, name) {
        Some(from)
    } else {
        first_child(cs, name, from + 1)
    }
}

pub proof fn lemma_first_child(cs: Seq<CompV>, name: Seq<char>, from: int)
    ensures
        first_child(cs, name, from) matches Some(i) ==> 0 <= from <= i < cs.len() && eq_ic(cs[i].name, name),
    decreases cs.len() - from,
{
    if from < 0 || from >= cs.len() {
    } else if eq_ic(cs[from].name, name) {
    } else {
        lemma_first_child(cs, name, from + 1);
    }
}

/// `lines` without any line named `name` (case-insensitively), order kept.
pub open spec fn remove_named(ls: Seq<LineV>, name: Seq<char>) -> Seq<LineV>
    decreases ls.len(),
{
    if ls.len() == 0 {
        Seq::empty()
    } else {
        let r = remove_named(ls.drop_last(), name);
        if eq_ic(ls.last().name, name) {
            r
        } else {
            r.push(ls.last())
        }
    }
}

/// `lines` after `set(line)`: the first line with the same name replaced,
/// or `line` appended when there is none.
pub open spec fn set_line(ls: Seq<LineV>, line: LineV) -> Seq<LineV> {
    match first_line(ls, line.name, 0) {
        Some(i) => ls.update(i, line),
        None => ls.push(line),
    }
}

/// Setting a line keeps every line with another name.
pub proof fn lemma_set_line_keeps(ls: Seq<LineV>, line: LineV, l: LineV)
    requires
        ls.contains(l),
        !eq_ic(l.name, line.name),
    ensures
        set_line(ls, line).contains(l),
{
    lemma_first_line(ls, line.name, 0);
    let k = choose|k: int| 0 <= k < ls.len() && ls[k] == l;
    match first_line(ls, line.name, 0) {
        Some(i) => {
            assert(i != k);
            assert(ls.update(i, line)[k] == l);
        },
        None => {
            assert(ls.push(line)[k] == l);
        },
    }
}

/// Removing the lines of one name keeps every line with another name.
pub proof fn lemma_remove_named_keeps(ls: Seq<LineV>, name: Seq<char>, l: LineV)
    requires
        ls.contains(l),
        !eq_ic(l.name, name),
    ensures
        remove_named(ls, name).contains(l),
    decreases ls.len(),
{
    let r = remove_named(ls.drop_last(), name);
    if ls.last() == l {
        assert(r.push(l)[r.len() as int] == l);
    } else {
        let k = choose|k: int| 0 <= k < ls.len() && ls[k] == l;
        assert(k < ls.len() - 1);
        assert(ls.drop_last()[k] == l);
        lemma_remove_named_keeps(ls.drop_last(), name, l);
        if !eq_ic(ls.last().name, name) {
            let q = choose|q: int| 0 <= q < r.len() && r[q] == l;
            assert(r.push(ls.last())[q] == l);
        }
    }
}

pub proof fn lemma_comp_view_fields(c: Component)
    ensures
        comp_view(c).name == c.name@,
        comp_view(c).lines == lines_view(c.lines@),
        comp_view(c).children == comps_view(c.children@),
{
    assert(comp_view(c).children =~= comps_view(c.children@));
}

impl Component {
    pub fn new(name: &str) -> (c: Component)
        ensures
            c@ == (CompV { name: name@, lines: Seq::empty(), children: Seq::empty() }),
    {
        let c = Component { name: copy_str(name), lines: Vec::new(), children: Vec::new() };
        proof {
            lemma_comp_view_fields(c);
            assert(lines_view(c.lines@) =~= Seq::<LineV>::empty());
            assert(comps_view(c.children@) =~= Seq::<CompV>::empty());
        }
        c
    }

    /// First child component with the given (case-insensitive) name.
    pub fn child(&self, name: &str) -> (r: Option<&Component>)
        ensures
            r matches Some(c) ==> first_child(self@.children, name@, 0) matches Some(i)
                && c@ == self@.children[i],
            r is None ==> first_child(self@.children, name@, 0) is None,
    {
        proof {
            lemma_comp_view_fields(*self);
        }
        let nv = chars_of(name);
        let mut i: usize = 0;
        while i < self.children.len()
            invariant
                nv@ == name@,
                0 <= i <= self.children@.len(),
                self@.children == comps_view(self.children@),
                first_child(self@.children, name@, 0) == first_child(self@.children, name@, i as int),
            decreases self.children.len() - i,
        {
            let cv = chars_of(self.children[i].name.as_str());
            proof {
                lemma_comp_view_fields(self.children@[i as int]);
            }
            if eq_ic_vec(&cv, &nv) {
                return Some(&self.children[i]);
            }
            i = i + 1;
        }
        None
    }

    /// Index of the first child with the given (case-insensitive) name.
    pub fn child_index(&self, name: &str) -> (r: Option<usize>)
        ensures
            r matches Some(i) ==> first_child(self@.children, name@, 0) == Some(i as int)
                && i < self.children@.len(),
            r is None ==> first_child(self@.children, name@, 0) is None,
    {
        proof {
            lemma_comp_view_fields(*self);
            lemma_first_child(self@.children, name@, 0);
        }
        let nv = chars_of(name);
        let mut i: usize = 0;
        while i < self.children.len()
            invariant
                nv@ == name@,
                0 <= i <= self.children@.len(),
                self@.children == comps_view(self.children@),
                first_child(self@.children, name@, 0) == first_child(self@.children, name@, i as int),
            decreases self.children.len() - i,
        {
            let cv = chars_of(self.children[i].name.as_str());
            proof {
                lemma_comp_view_fields(self.children@[i as int]);
            }
            if eq_ic_vec(&cv, &nv) {
                return Some(i);
            }
            i = i + 1;
        }
        None
    }

    /// Index of the first line with the given (case-insensitive) property name.
    pub fn line_index(&self, name: &str) -> (r: Option<usize>)
        ensures
            r matches Some(i) ==> first_line(self@.lines, name@, 0) == Some(i as int) && i < self.lines@.len(),
            r is None ==> first_line(self@.lines, name@, 0) is None,
    {
        proof {
            lemma_comp_view_fields(*self);
            lemma_first_line(self@.lines, name@, 0);
        }
        let mut i: usize = 0;
        while i < self.lines.len()
            invariant
                0 <= i <= self.lines@.len(),
                self@.lines == lines_view(self.lines@),
                first_line(self@.lines, name@, 0) == first_line(self@.lines, name@, i as int),
            decreases self.lines.len() - i,
        {
            if self.lines[i].is(name) {
                return Some(i);
            }
            i = i + 1;
        }
        None
    }

    /// First line with the given (case-insensitive) property name.
    pub fn line(&self, name: &str) -> (r: Option<&Line>)
        ensures
            r matches Some(l) ==> first_line(self@.lines, name@, 0) matches Some(i) && l@ == self@.lines[i],
            r is None ==> first_line(self@.lines, name@, 0) is None,
    {
        proof {
            lemma_comp_view_fields(*self);
        }
        match self.line_index(name) {
            Some(i) => Some(&self.lines[i]),
            None => None,
        }
    }

    /// The raw value of a property, or `None` if absent.
    pub fn value(&self, name: &str) -> (r: Option<&str>)
        ensures
            r matches Some(v) ==> first_line(self@.lines, name@, 0) matches Some(i) && v@ == self@.lines[i].value,
            r is None ==> first_line(self@.lines, name@, 0) is None,
    {
        match self.line(name) {
            Some(l) => Some(l.value.as_str()),
            None => None,
        }
    }

    /// Replace the first line named like `line`, or append it if none exists.
    pub fn set(&mut self, line: Line)
        ensures
            final(self)@ == (CompV { lines: set_line(old(self)@.lines, line@), ..old(self)@ }),
    {
        proof {
            lemma_comp_view_fields(*self);
        }
        let ghost lv = line@;
        let idx = self.line_index(line.name.as_str());
        match idx {
            Some(i) => {
                self.lines.set(i, line);
            },
            None => {
                self.lines.push(line);
            },
        }
        proof {
            lemma_comp_view_fields(*self);
            assert(lines_view(self.lines@) =~= set_line(old(self)@.lines, lv));
        }
    }

    /// Remove every line with the given (case-insensitive) name.
    pub fn remove(&mut self, name: &str)
        ensures
            final(self)@ == (CompV { lines: remove_named(old(self)@.lines, name@), ..old(self)@ }),
    {
        proof {
            lemma_comp_view_fields(*self);
        }
        let mut old_lines: Vec<Line> = Vec::new();
        std::mem::swap(&mut old_lines, &mut self.lines);
        let ghost ol = lines_view(old_lines@);
        let mut kept: Vec<Line> = Vec::new();
        let mut i: usize = 0;
        while i < old_lines.len()
            invariant
                0 <= i <= old_lines@.len(),
                ol == lines_view(old_lines@),
                lines_view(kept@) == remove_named(ol.take(i as int), name@),
            decreases old_lines.len() - i,
        {
            proof {
                assert(ol.take(i + 1).drop_last() =~= ol.take(i as int));
            }
            if !old_lines[i].is(name) {
                let l = old_lines[i].duplicate();
                let ghost before = kept@;
                kept.push(l);
                proof {
                    assert(lines_view(kept@) =~= lines_view(before).push(l@));
                }
            }
            proof {
                assert(lines_view(kept@) =~= remove_named(ol.take(i + 1), name@));
            }
            i = i + 1;
        }
        self.lines = kept;
        proof {
            assert(ol.take(ol.len() as int) =~= ol);
            lemma_comp_view_fields(*self);
        }
    }
}

} // verus!

verus! {

// ---------------------------------------------------------------------------
// TEXT escaping
// ---------------------------------------------------------------------------

/// Escaped form of one character (RFC 5545 §3.3.11 / RFC 6350 §3.4):
/// backslash, newline, comma and semicolon are escaped; CR is dropped.
pub open spec fn esc_char(c: char) -> Seq<char> {
    if c == '\\' {
        seq!['\\', '\\']
    } else if c == '\n' {
        seq!['\\', 'n']
    } else if c == '\r' {
        Seq::empty()
    } else if c == ',' {
        seq!['\\', ',']
    } else if c == ';' {
        seq!['\\', ';']
    } else {
        seq![c]
    }
}

pub open spec fn escape_spec(s: Seq<char>) -> Seq<char>
    decreases s.len(),
{
    if s.len() == 0 {
        Seq::empty()
    } else {
        esc_char(s[0]) + escape_spec(s.drop_first())
    }
}

/// Decoding of an escaped TEXT value: `\n`/`\N` become a newline, any other
/// escaped character stands for itself, and a trailing lone `\` is kept.
pub open spec fn unescape_spec(s: Seq<char>) -> Seq<char>
    decreases s.len(),
{
    if s.len() == 0 {
        Seq::empty()
    } else if s[0] == '\\' {
        if s.len() == 1 {
            seq!['\\']
        } else if s[1] == 'n' || s[1] == 'N' {
            seq!['\n'] + unescape_spec(s.skip(2))
        } else {
            seq![s[1]] + unescape_spec(s.skip(2))
        }
    } else {
        seq![s[0]] + unescape_spec(s.drop_first())
    }
}

proof fn lemma_escape_snoc(s: Seq<char>, i: int)
    requires
        0 <= i < s.len(),
    ensures
        escape_spec(s.take(i + 1)) == escape_spec(s.take(i)) + esc_char(s[i]),
    decreases i,
{
    if i == 0 {
        assert(s.take(1).drop_first() =~= Seq::<char>::empty());
        assert(s.take(0) =~= Seq::<char>::empty());
        assert(s.take(1)[0] == s[0]);
        assert(escape_spec(Seq::<char>::empty()) == Seq::<char>::empty());
        assert(escape_spec(s.take(1)) =~= esc_char(s[0]));
    } else {
        let t = s.drop_first();
        lemma_escape_snoc(t, i - 1);
        assert(s.take(i + 1).drop_first() =~= t.take(i));
        assert(s.take(i).drop_first() =~= t.take(i - 1));
        assert(t[i - 1] == s[i]);
        assert(escape_spec(s.take(i + 1)) =~= esc_char(s[0]) + escape_spec(t.take(i)));
        assert(escape_spec(s.take(i)) =~= esc_char(s[0]) + escape_spec(t.take(i - 1)));
    }
}

/// Escape a TEXT value: backslash, newline, comma, semicolon. Used when
/// writing user-entered text into a value.
pub fn escape_text(s: &str) -> (r: String)
    ensures
        r@ == escape_spec(s@),
{
    let v = chars_of(s);
    let mut out = String::new();
    let mut i: usize = 0;
    while i < v.len()
        invariant
            0 <= i <= v@.len(),
            v@ == s@,
            out@ == escape_spec(v@.take(i as int)),
        decreases v.len() - i,
    {
        let ch = v[i];
        proof {
            lemma_escape_snoc(v@, i as int);
        }
        if ch == '\\' {
            push_char(&mut out, '\\');
            push_char(&mut out, '\\');
        } else if ch == '\n' {
            push_char(&mut out, '\\');
            push_char(&mut out, 'n');
        } else if ch == '\r' {
        } else if ch == ',' {
            push_char(&mut out, '\\');
            push_char(&mut out, ',');
        } else if ch == ';' {
            push_char(&mut out, '\\');
            push_char(&mut out, ';');
        } else {
            push_char(&mut out, ch);
        }
        proof {
            assert(out@ =~= escape_spec(v@.take(i as int)) + esc_char(ch));
        }
        i = i + 1;
    }
    proof {
        assert(v@.take(v@.len() as int) =~= v@);
    }
    out
}

/// Inverse of [`escape_text`] — decode an escaped TEXT value for display.
pub fn unescape_text(s: &str) -> (r: String)
    ensures
        r@ == unescape_spec(s@),
{
    let v = chars_of(s);
    let mut out = String::new();
    let mut i: usize = 0;
    proof {
        assert(v@.skip(0) =~= v@);
        assert(out@ + unescape_spec(v@.skip(0)) =~= unescape_spec(v@));
    }
    while i < v.len()
        invariant
            0 <= i <= v@.len(),
            v@ == s@,
            out@ + unescape_spec(v@.skip(i as int)) == unescape_spec(v@),
        decreases v.len() - i,
    {
        let ch = v[i];
        let ghost rest = v@.skip(i as int);
        proof {
            assert(rest[0] == ch);
        }
        if ch == '\\' {
            if i + 1 < v.len() {
                let n = v[i + 1];
                proof {
                    assert(rest[1] == n);
                    assert(rest.skip(2) =~= v@.skip(i + 2));
                }
                if n == 'n' || n == 'N' {
                    push_char(&mut out, '\n');
                } else {
                    push_char(&mut out, n);
                }
                proof {
                    assert(out@ + unescape_spec(v@.skip(i + 2)) =~= unescape_spec(v@));
                }
                i = i + 2;
            } else {
                push_char(&mut out, '\\');
                proof {
                    assert(rest.len() == 1);
                    assert(v@.skip(i + 1).len() == 0);
                    assert(out@ + unescape_spec(v@.skip(i + 1)) =~= unescape_spec(v@));
                }
                i = i + 1;
            }
        } else {
            push_char(&mut out, ch);
            proof {
                assert(rest.drop_first() =~= v@.skip(i + 1));
                assert(out@ + unescape_spec(v@.skip(i + 1)) =~= unescape_spec(v@));
            }
            i = i + 1;
        }
    }
    proof {
        assert(v@.skip(v@.len() as int).len() == 0);
        assert(out@ =~= out@ + unescape_spec(v@.skip(i as int)));
    }
    out
}

/// The characters of `s` other than CR.
pub open spec fn without_cr(s: Seq<char>) -> Seq<char>
    decreases s.len(),
{
    if s.len() == 0 {
        Seq::empty()
    } else if s[0] == '\r' {
        without_cr(s.drop_first())
    } else {
        seq![s[0]] + without_cr(s.drop_first())
    }
}

/// Escaping then unescaping a TEXT value gives it back, except for carriage
/// returns, which escaping drops.
pub proof fn law_unescape_escape(s: Seq<char>)
    ensures
        unescape_spec(escape_spec(s)) == without_cr(s),
    decreases s.len(),
{
    if s.len() > 0 {
        let c = s[0];
        let t = s.drop_first();
        law_unescape_escape(t);
        let e = escape_spec(t);
        assert(escape_spec(s) == esc_char(c) + e);
        if c == '\\' || c == '\n' || c == ',' || c == ';' {
            let x = esc_char(c) + e;
            assert(x[0] == '\\');
            assert(x.len() >= 2);
            assert(x.skip(2) =~= e);
        } else if c == '\r' {
            assert(esc_char(c) + e =~= e);
        } else {
            let x = esc_char(c) + e;
            assert(x.drop_first() =~= e);
        }
    }
}

} // verus!

verus! {

// ---------------------------------------------------------------------------
// Unfolding and line splitting
// ---------------------------------------------------------------------------

pub open spec fn vecs_view(vs: Seq<Vec<char>>) -> Seq<Seq<char>> {
    Seq::new(vs.len(), |i: int| vs[i]@)
}

/// A raw line without its trailing CR.
pub open spec fn strip_cr(raw: Seq<char>) -> Seq<char> {
    if raw.len() > 0 && raw.last() == '\r' {
        raw.drop_last()
    } else {
        raw
    }
}

/// One step of unfolding (RFC 5545 §3.1): a line starting with a space or tab
/// continues the previous logical line; blank lines directly after a blank
/// line (or at the start) are dropped; any other line starts a new logical line.
pub open spec fn unfold_step(out: Seq<Seq<char>>, raw: Seq<char>) -> Seq<Seq<char>> {
    let line = strip_cr(raw);
    if line.len() > 0 && (line[0] == ' ' || line[0] == '\t') && out.len() > 0 {
        out.update(out.len() - 1, out.last() + line.drop_first())
    } else if line.len() == 0 && (out.len() == 0 || out.last().len() == 0) {
        out
    } else {
        out.push(line)
    }
}

pub open spec fn unfold_lines(raws: Seq<Seq<char>>) -> Seq<Seq<char>>
    decreases raws.len(),
{
    if raws.len() == 0 {
        Seq::empty()
    } else {
        unfold_step(unfold_lines(raws.drop_last()), raws.last())
    }
}

/// Unfolding: a raw line that begins with a space or a horizontal tab
/// continues the logical line before it: what follows that first character
/// (without a trailing CR) is appended to the last logical line, and no new
/// logical line starts.
pub proof fn law_folded_line_continues(raws: Seq<Seq<char>>, w: char, rest: Seq<char>)
    requires
        w == ' ' || w == '\t',
        unfold_lines(raws).len() > 0,
        rest.len() == 0 || rest.last() != '\r',
    ensures
        ({
            let prev = unfold_lines(raws);
            let joined = prev.update(prev.len() - 1, prev.last() + rest);
            &&& unfold_lines(raws.push(seq![w] + rest)) == joined
            &&& unfold_lines(raws.push(seq![w] + rest + seq!['\r'])) == joined
        }),
{
    let c = seq![w] + rest;
    let c2 = c + seq!['\r'];
    assert(raws.push(c).drop_last() =~= raws);
    assert(raws.push(c2).drop_last() =~= raws);
    assert(c.last() != '\r') by {
        if rest.len() > 0 {
            assert(c.last() == rest.last());
        } else {
            assert(c.last() == w);
        }
    }
    assert(strip_cr(c) == c);
    assert(c2.drop_last() =~= c);
    assert(strip_cr(c2) == c);
    assert(c[0] == w);
    assert(c.drop_first() =~= rest);
}

proof fn lemma_split_c_push(doc: Seq<char>, b: Seq<char>, c: char)
    requires
        lacks_char(b, c),
    ensures
        split_c(doc + seq![c] + b, c) == split_c(doc, c).push(b),
    decreases b.len(),
{
    let s = doc + seq![c] + b;
    if b.len() == 0 {
        assert(s.drop_last() =~= doc);
        assert(s.last() == c);
        assert(b =~= Seq::<char>::empty());
        assert(split_c(s, c) == split_c(s.drop_last(), c).push(Seq::<char>::empty()));
    } else {
        let d = b.drop_last();
        assert(lacks_char(d, c)) by {
            assert forall|k: int| 0 <= k < d.len() implies d[k] != c by {
                assert(d[k] == b[k]);
            }
        }
        lemma_split_c_push(doc, d, c);
        assert(s.drop_last() =~= doc + seq![c] + d);
        assert(s.last() == b[b.len() - 1]);
        let p = split_c(doc, c).push(d);
        assert(s.last() != c);
        assert(split_c(s, c) == p.update(p.len() - 1, p.last().push(s.last())));
        assert(d.push(b.last()) =~= b);
        assert(p.update(p.len() - 1, p.last().push(s.last())) =~= split_c(doc, c).push(b));
    }
}

/// Unfolding a document: text that goes on after a line break with a space
/// or a horizontal tab continues the last logical line: the document's
/// logical lines come back with that text (after the space or tab, without a
/// trailing CR) appended to the last one.
pub proof fn law_unfold_continues_text(doc: Seq<char>, w: char, rest: Seq<char>)
    requires
        w == ' ' || w == '\t',
        lacks_char(rest, '\n'),
        rest.len() == 0 || rest.last() != '\r',
        unfold_spec(doc).len() > 0,
    ensures
        ({
            let prev = unfold_spec(doc);
            unfold_spec(doc + seq!['\n', w] + rest) == prev.update(prev.len() - 1, prev.last() + rest)
        }),
{
    let b = seq![w] + rest;
    assert(lacks_char(b, '\n')) by {
        assert forall|k: int| 0 <= k < b.len() implies b[k] != '\n' by {
            if k > 0 {
                assert(b[k] == rest[k - 1]);
            }
        }
    }
    assert(doc + seq!['\n', w] + rest =~= doc + seq!['\n'] + b);
    lemma_split_c_push(doc, b, '\n');
    law_folded_line_continues(split_c(doc, '\n'), w, rest);
}

/// Logical lines of a raw document.
pub open spec fn unfold_spec(input: Seq<char>) -> Seq<Seq<char>> {
    unfold_lines(split_c(input, '\n'))
}

/// Unfold a raw document into logical lines.
pub fn unfold(input: &str) -> (out: Vec<Vec<char>>)
    ensures
        vecs_view(out@) == unfold_spec(input@),
{
    let v = chars_of(input);
    let ranges = split_ranges(&v, '\n');
    let ghost raws = split_c(v@, '\n');
    let mut out: Vec<Vec<char>> = Vec::new();
    let mut i: usize = 0;
    while i < ranges.len()
        invariant
            v@ == input@,
            raws == split_c(v@, '\n'),
            ranges@.len() == raws.len(),
            forall|x: int| #![trigger ranges@[x]] 0 <= x < ranges@.len() ==> ranges@[x].0 <= ranges@[x].1
                && ranges@[x].1 <= v@.len() && v@.subrange(ranges@[x].0 as int, ranges@[x].1 as int) == raws[x],
            0 <= i <= ranges@.len(),
            vecs_view(out@) == unfold_lines(raws.take(i as int)),
        decreases ranges.len() - i,
    {
        let (lo, hi0) = ranges[i];
        let hi = if hi0 > lo && v[hi0 - 1] == '\r' { hi0 - 1 } else { hi0 };
        let ghost raw = raws[i as int];
        let ghost prev = vecs_view(out@);
        proof {
            assert(raws.take(i + 1).drop_last() =~= raws.take(i as int));
            assert(raws.take(i + 1).last() == raw);
            if hi0 > lo {
                assert(raw.last() == v@[hi0 - 1]);
            }
            assert(v@.subrange(lo as int, hi as int) =~= strip_cr(raw));
        }
        let ghost line = strip_cr(raw);
        if hi > lo && (v[lo] == ' ' || v[lo] == '\t') && out.len() > 0 {
            let mut last = out.pop().unwrap();
            let mut k = lo + 1;
            let ghost base = last@;
            while k < hi
                invariant
                    lo < k <= hi <= v@.len(),
                    last@ == base + v@.subrange(lo + 1, k as int),
                decreases hi - k,
            {
                last.push(v[k]);
                proof {
                    assert(v@.subrange(lo + 1, k + 1) =~= v@.subrange(lo + 1, k as int).push(v@[k as int]));
                }
                k = k + 1;
            }
            out.push(last);
            proof {
                assert(line[0] == v@[lo as int]);
                assert(line.drop_first() =~= v@.subrange(lo + 1, hi as int));
                assert(vecs_view(out@) =~= prev.update(prev.len() - 1, prev.last() + line.drop_first()));
            }
        } else if hi == lo && (out.len() == 0 || out[out.len() - 1].len() == 0) {
            proof {
                if prev.len() > 0 {
                    assert(prev.last() == out@[out@.len() - 1]@);
                }
            }
        } else {
            let l = slice_vec(&v, lo, hi);
            out.push(l);
            proof {
                if hi > lo {
                    assert(line[0] == v@[lo as int]);
                }
                if prev.len() > 0 {
                    assert(prev.last() == out@[prev.len() - 1]@);
                }
                assert(vecs_view(out@) =~= prev.push(line));
            }
        }
        i = i + 1;
    }
    proof {
        assert(raws.take(raws.len() as int) =~= raws);
    }
    out
}

/// Scanning state of [`split_line`]: the `:` that ends name+params is the
/// first one outside a quoted parameter value; parameters begin at the first
/// unquoted `;` before it.
pub open spec fn scan(l: Seq<char>, k: int, q: bool, semi: Option<int>) -> Option<(int, Option<int>)>
    decreases l.len() - k,
{
    if k < 0 || k >= l.len() {
        None
    } else if l[k] == '"' {
        scan(l, k + 1, !q, semi)
    } else if l[k] == ';' && !q && semi is None {
        scan(l, k + 1, q, Some(k))
    } else if l[k] == ':' && !q {
        Some((k, semi))
    } else {
        scan(l, k + 1, q, semi)
    }
}

/// `(name, params, value)` of a logical line, or `None` without an unquoted `:`.
pub open spec fn split_line_spec(l: Seq<char>) -> Option<(Seq<char>, Seq<char>, Seq<char>)> {
    match scan(l, 0, false, None) {
        None => None,
        Some((c, semi)) => match semi {
            Some(s) => Some((l.take(s), l.subrange(s, c), l.skip(c + 1))),
            None => Some((l.take(c), Seq::empty(), l.skip(c + 1))),
        },
    }
}

/// Exec scan: `(colon, semi)` positions.
fn scan_exec(v: &Vec<char>) -> (r: Option<(usize, Option<usize>)>)
    ensures
        r matches Some((c, semi)) ==> scan(v@, 0, false, None) == Some((c as int, match semi {
            Some(s) => Some(s as int),
            None => None,
        })) && c < v@.len() && (semi matches Some(s) ==> s < c),
        r is None ==> scan(v@, 0, false, None) is None,
{
    let mut q = false;
    let mut semi: Option<usize> = None;
    let mut k: usize = 0;
    while k < v.len()
        invariant
            0 <= k <= v@.len(),
            semi matches Some(s) ==> s < k,
            scan(v@, 0, false, None) == scan(v@, k as int, q, match semi {
                Some(s) => Some(s as int),
                None => None,
            }),
        decreases v.len() - k,
    {
        let b = v[k];
        if b == '"' {
            q = !q;
        } else if b == ';' && !q && semi.is_none() {
            semi = Some(k);
        } else if b == ':' && !q {
            return Some((k, semi));
        }
        k = k + 1;
    }
    None
}

/// Split a logical line into `(name, params, value)`.
pub fn split_line(line: &str) -> (r: Option<(String, String, String)>)
    ensures
        r matches Some((n, p, v)) ==> split_line_spec(line@) == Some((n@, p@, v@)),
        r is None ==> split_line_spec(line@) is None,
{
    let v = chars_of(line);
    match scan_exec(&v) {
        None => None,
        Some((c, semi)) => {
            assert(c < v.len());
            let value = string_of(&v, c + 1, v.len());
            proof {
                assert(v@.skip(c + 1) =~= v@.subrange(c + 1, v@.len() as int));
            }
            match semi {
                Some(s) => {
                    let name = string_of(&v, 0, s);
                    let params = string_of(&v, s, c);
                    proof {
                        assert(v@.take(s as int) =~= v@.subrange(0, s as int));
                    }
                    Some((name, params, value))
                },
                None => {
                    let name = string_of(&v, 0, c);
                    proof {
                        assert(v@.take(c as int) =~= v@.subrange(0, c as int));
                    }
                    Some((name, String::new(), value))
                },
            }
        },
    }
}

} // verus!

verus! {

// ---------------------------------------------------------------------------
// Parsing
// ---------------------------------------------------------------------------

pub open spec fn begin_kw() -> Seq<char> {
    seq!['B', 'E', 'G', 'I', 'N']
}

pub open spec fn end_kw() -> Seq<char> {
    seq!['E', 'N', 'D']
}

/// Parser state: finished top-level components and the stack of open ones.
pub struct ParseState {
    pub roots: Seq<CompV>,
    pub stack: Seq<CompV>,
}

/// One logical line through the component state machine: `BEGIN:X` opens a
/// component named `X` (trimmed), `END` closes the innermost open one into its
/// parent (or the roots), any other line is added to the innermost open
/// component. Lines outside any component and lines without a `:` are ignored.
pub open spec fn parse_step(st: ParseState, logical: Seq<char>) -> ParseState {
    if logical.len() == 0 {
        st
    } else {
        match split_line_spec(logical) {
            None => st,
            Some((name, params, value)) => {
                if eq_ic(name, begin_kw()) {
                    ParseState {
                        stack: st.stack.push(
                            CompV { name: trim_ws(value), lines: Seq::empty(), children: Seq::empty() },
                        ),
                        ..st
                    }
                } else if eq_ic(name, end_kw()) {
                    if st.stack.len() == 0 {
                        st
                    } else {
                        let done = st.stack.last();
                        let rest = st.stack.drop_last();
                        if rest.len() > 0 {
                            let parent = rest.last();
                            ParseState {
                                stack: rest.update(
                                    rest.len() - 1,
                                    CompV { children: parent.children.push(done), ..parent },
                                ),
                                ..st
                            }
                        } else {
                            ParseState { roots: st.roots.push(done), stack: rest }
                        }
                    }
                } else if st.stack.len() > 0 {
                    let top = st.stack.last();
                    ParseState {
                        stack: st.stack.update(
                            st.stack.len() - 1,
                            CompV {
                                lines: top.lines.push(LineV { name, params, value }),
                                ..top
                            },
                        ),
                        ..st
                    }
                } else {
                    st
                }
            },
        }
    }
}

pub open spec fn parse_lines(ls: Seq<Seq<char>>) -> ParseState
    decreases ls.len(),
{
    if ls.len() == 0 {
        ParseState { roots: Seq::empty(), stack: Seq::empty() }
    } else {
        parse_step(parse_lines(ls.drop_last()), ls.last())
    }
}

/// The top-level components of a document.
pub open spec fn parse_spec(input: Seq<char>) -> Seq<CompV> {
    parse_lines(unfold_spec(input)).roots
}

fn kw_begin() -> (v: Vec<char>)
    ensures
        v@ == begin_kw(),
{
    let v = vec!['B', 'E', 'G', 'I', 'N'];
    proof {
        assert(v@ =~= begin_kw());
    }
    v
}

fn kw_end() -> (v: Vec<char>)
    ensures
        v@ == end_kw(),
{
    let v = vec!['E', 'N', 'D'];
    proof {
        assert(v@ =~= end_kw());
    }
    v
}

proof fn lemma_comps_view_push(cs: Seq<Component>, c: Component)
    ensures
        comps_view(cs.push(c)) == comps_view(cs).push(comp_view(c)),
{
    assert(comps_view(cs.push(c)) =~= comps_view(cs).push(comp_view(c)));
}

proof fn lemma_comps_view_drop_last(cs: Seq<Component>)
    requires
        cs.len() > 0,
    ensures
        comps_view(cs.drop_last()) == comps_view(cs).drop_last(),
        comps_view(cs).last() == comp_view(cs.last()),
{
    assert(comps_view(cs.drop_last()) =~= comps_view(cs).drop_last());
}

/// Parse a full document into its top-level components (usually one
/// VCALENDAR, or a sequence of VCARDs). Lines outside any `BEGIN/END` are
/// ignored.
pub fn parse(input: &str) -> (roots: Vec<Component>)
    ensures
        comps_view(roots@) == parse_spec(input@),
{
    let logical = unfold(input);
    let ghost ls = vecs_view(logical@);
    let kb = kw_begin();
    let ke = kw_end();
    let mut roots: Vec<Component> = Vec::new();
    let mut stack: Vec<Component> = Vec::new();
    let mut i: usize = 0;
    proof {
        assert(ls.take(0) =~= Seq::<Seq<char>>::empty());
        assert(comps_view(roots@) =~= Seq::<CompV>::empty());
        assert(comps_view(stack@) =~= Seq::<CompV>::empty());
    }
    while i < logical.len()
        invariant
            ls == vecs_view(logical@),
            ls == unfold_spec(input@),
            kb@ == begin_kw(),
            ke@ == end_kw(),
            0 <= i <= logical@.len(),
            parse_lines(ls.take(i as int)).roots == comps_view(roots@),
            parse_lines(ls.take(i as int)).stack == comps_view(stack@),
        decreases logical.len() - i,
    {
        let ghost st = parse_lines(ls.take(i as int));
        let lv = &logical[i];
        proof {
            assert(ls.take(i + 1).drop_last() =~= ls.take(i as int));
            assert(ls.take(i + 1).last() == lv@);
        }
        if lv.len() > 0 {
            let line = string_of_all_vec(lv);
            match split_line(line.as_str()) {
                None => {},
                Some((name, params, value)) => {
                    let nv = chars_of(name.as_str());
                    if eq_ic_vec(&nv, &kb) {
                        let vv = chars_of(value.as_str());
                        let (a, b) = trim_bounds(&vv, 0, vv.len());
                        proof {
                            assert(vv@.subrange(0, vv@.len() as int) =~= vv@);
                        }
                        let nm = string_of(&vv, a, b);
                        let c = Component::new(nm.as_str());
                        let ghost s0 = stack@;
                        stack.push(c);
                        proof {
                            lemma_comps_view_push(s0, c);
                        }
                    } else if eq_ic_vec(&nv, &ke) {
                        if stack.len() > 0 {
                            let ghost s0 = stack@;
                            let done = stack.pop().unwrap();
                            proof {
                                lemma_comps_view_drop_last(s0);
                                assert(stack@ == s0.drop_last());
                            }
                            if stack.len() > 0 {
                                let ghost s1 = stack@;
                                let mut parent = stack.pop().unwrap();
                                let ghost pv = comp_view(parent);
                                proof {
                                    lemma_comps_view_drop_last(s1);
                                    lemma_comp_view_fields(parent);
                                }
                                let ghost dv = comp_view(done);
                                let ghost pch = parent.children@;
                                parent.children.push(done);
                                proof {
                                    lemma_comp_view_fields(parent);
                                    lemma_comps_view_push(pch, done);
                                    assert(comp_view(parent) == CompV { children: pv.children.push(dv), ..pv });
                                }
                                stack.push(parent);
                                proof {
                                    lemma_comps_view_push(s1.drop_last(), parent);
                                    assert(comps_view(stack@) =~= comps_view(s1).update(
                                        comps_view(s1).len() - 1,
                                        CompV { children: pv.children.push(dv), ..pv },
                                    ));
                                }
                            } else {
                                let ghost r0 = roots@;
                                roots.push(done);
                                proof {
                                    lemma_comps_view_push(r0, done);
                                }
                            }
                        }
                    } else if stack.len() > 0 {
                        let ghost s1 = stack@;
                        let mut top = stack.pop().unwrap();
                        let ghost tv = comp_view(top);
                        proof {
                            lemma_comps_view_drop_last(s1);
                            lemma_comp_view_fields(top);
                        }
                        let l = Line { name, params, value };
                        let ghost tl = top.lines@;
                        top.lines.push(l);
                        proof {
                            lemma_comp_view_fields(top);
                            assert(lines_view(top.lines@) =~= lines_view(tl).push(l@));
                        }
                        stack.push(top);
                        proof {
                            lemma_comps_view_push(s1.drop_last(), top);
                            assert(comps_view(stack@) =~= comps_view(s1).update(
                                comps_view(s1).len() - 1,
                                CompV { lines: tv.lines.push(l@), ..tv },
                            ));
                        }
                    }
                },
            }
        }
        i = i + 1;
    }
    proof {
        assert(ls.take(ls.len() as int) =~= ls);
    }
    roots
}

fn string_of_all_vec(v: &Vec<char>) -> (r: String)
    ensures
        r@ == v@,
{
    crate::text::string_of_all(v)
}

} // verus!

verus! {

// ---------------------------------------------------------------------------
// Folding and serialization
// ---------------------------------------------------------------------------

/// Number of UTF-8 octets that encode `c`.
pub open spec fn char_len(c: char) -> int {
    if (c as u32) < 0x80 {
        1
    } else if (c as u32) < 0x800 {
        2
    } else if (c as u32) < 0x10000 {
        3
    } else {
        4
    }
}

/// Number of UTF-8 octets that encode `s`.
pub open spec fn octets(s: Seq<char>) -> int
    decreases s.len(),
{
    if s.len() == 0 {
        0
    } else {
        char_len(s[0]) + octets(s.drop_first())
    }
}

pub fn char_len_exec(c: char) -> (n: usize)
    ensures
        n == char_len(c),
{
    let u = c as u32;
    if u < 0x80 {
        1
    } else if u < 0x800 {
        2
    } else if u < 0x10000 {
        3
    } else {
        4
    }
}

/// How many leading characters of `s` fit into `budget` octets.
pub open spec fn fit(s: Seq<char>, budget: int) -> int
    decreases s.len(),
{
    if s.len() == 0 || char_len(s[0]) > budget {
        0
    } else {
        1 + fit(s.drop_first(), budget - char_len(s[0]))
    }
}

pub proof fn lemma_fit_bounds(s: Seq<char>, budget: int)
    ensures
        0 <= fit(s, budget) <= s.len(),
        budget >= 4 && s.len() > 0 ==> fit(s, budget) >= 1,
        octets(s.take(fit(s, budget))) <= budget || fit(s, budget) == 0,
    decreases s.len(),
{
    if s.len() == 0 || char_len(s[0]) > budget {
    } else {
        let t = s.drop_first();
        lemma_fit_bounds(t, budget - char_len(s[0]));
        let n = fit(s, budget);
        assert(s.take(n).drop_first() =~= t.take(n - 1));
        assert(s.take(n)[0] == s[0]);
        if n - 1 == 0 {
            assert(t.take(0) =~= Seq::<char>::empty());
        }
    }
}

pub open spec fn crlf() -> Seq<char> {
    seq!['\r', '\n']
}

/// Physical lines for the rest of a logical line: at most 75 octets on the
/// first line, and 74 plus the leading space on each continuation line.
pub open spec fn fold_rest(s: Seq<char>, first: bool) -> Seq<char>
    decreases s.len(),
{
    if s.len() == 0 {
        Seq::empty()
    } else {
        let n = fit(s, if first { 75 } else { 74 });
        proof {
            lemma_fit_bounds(s, if first { 75 } else { 74 });
        }
        if n <= 0 {
            Seq::empty()
        } else {
            (if first { Seq::empty() } else { seq![' '] }) + s.take(n) + crlf() + fold_rest(s.skip(n), false)
        }
    }
}

/// A logical line as folded, CRLF-terminated text.
pub open spec fn fold_spec(s: Seq<char>) -> Seq<char> {
    if s.len() == 0 {
        crlf()
    } else {
        fold_rest(s, true)
    }
}

/// Fold a single emitted line to at most 75 octets per physical line
/// (RFC 5545 §3.1), never splitting a character, joining with CRLF + space,
/// and append it to `out`.
pub fn fold(line: &str, out: &mut String)
    ensures
        final(out)@ == old(out)@ + fold_spec(line@),
{
    let v = chars_of(line);
    if v.len() == 0 {
        push_char(out, '\r');
        push_char(out, '\n');
        proof {
            assert(final(out)@ =~= old(out)@ + crlf());
        }
        return;
    }
    let mut start: usize = 0;
    let mut first = true;
    proof {
        assert(v@.skip(0) =~= v@);
        assert(out@ + fold_rest(v@.skip(0), true) =~= old(out)@ + fold_spec(line@));
    }
    while start < v.len()
        invariant
            v@ == line@,
            v@.len() > 0,
            0 <= start <= v@.len(),
            out@ + fold_rest(v@.skip(start as int), first) == old(out)@ + fold_spec(line@),
        decreases v.len() - start,
    {
        let budget: usize = if first { 75 } else { 74 };
        let ghost rest = v@.skip(start as int);
        let mut end = start;
        let mut used: usize = 0;
        proof {
            assert(v@.skip(end as int) =~= rest);
        }
        while end < v.len() && used + char_len_exec(v[end]) <= budget
            invariant
                start <= end <= v@.len(),
                used <= budget,
                budget == 74 || budget == 75,
                fit(rest, budget as int) == (end - start) + fit(v@.skip(end as int), budget - used),
                rest == v@.skip(start as int),
            decreases v.len() - end,
        {
            proof {
                let t = v@.skip(end as int);
                assert(t[0] == v@[end as int]);
                assert(t.drop_first() =~= v@.skip(end + 1));
            }
            used = used + char_len_exec(v[end]);
            end = end + 1;
        }
        proof {
            let t = v@.skip(end as int);
            if end < v@.len() {
                assert(t[0] == v@[end as int]);
            }
            assert(fit(t, budget - used) == 0);
            lemma_fit_bounds(rest, budget as int);
            assert(rest.take(end - start) =~= v@.subrange(start as int, end as int));
            assert(rest.skip(end - start) =~= v@.skip(end as int));
        }
        if !first {
            push_char(out, ' ');
        }
        push_range(out, &v, start, end);
        push_char(out, '\r');
        push_char(out, '\n');
        proof {
            let n = end - start;
            assert(fold_rest(rest, first) == (if first { Seq::empty() } else { seq![' '] }) + rest.take(n) + crlf()
                + fold_rest(rest.skip(n), false));
            assert(out@ + fold_rest(v@.skip(end as int), false) =~= old(out)@ + fold_spec(line@));
        }
        start = end;
        first = false;
    }
    proof {
        assert(v@.skip(start as int).len() == 0);
        assert(out@ =~= out@ + fold_rest(v@.skip(start as int), first));
    }
}

/// The physical lines (without their CRLF) that folding a logical line
/// produces.
pub open spec fn fold_pieces(s: Seq<char>, first: bool) -> Seq<Seq<char>>
    decreases s.len(),
{
    if s.len() == 0 {
        Seq::empty()
    } else {
        let n = fit(s, if first { 75 } else { 74 });
        proof {
            lemma_fit_bounds(s, if first { 75 } else { 74 });
        }
        if n <= 0 {
            Seq::empty()
        } else {
            seq![(if first { Seq::empty() } else { seq![' '] }) + s.take(n)] + fold_pieces(s.skip(n), false)
        }
    }
}

/// Lines joined, each followed by CRLF.
pub open spec fn join_crlf(ps: Seq<Seq<char>>) -> Seq<char>
    decreases ps.len(),
{
    if ps.len() == 0 {
        Seq::empty()
    } else {
        ps[0] + crlf() + join_crlf(ps.drop_first())
    }
}

proof fn lemma_octets_space(c: Seq<char>)
    ensures
        octets(seq![' '] + c) == 1 + octets(c),
{
    assert((seq![' '] + c).drop_first() =~= c);
    assert((seq![' '] + c)[0] == ' ');
}

proof fn lemma_fold_pieces(s: Seq<char>, first: bool)
    ensures
        fold_rest(s, first) == join_crlf(fold_pieces(s, first)),
        forall|i: int| 0 <= i < fold_pieces(s, first).len() ==> octets(#[trigger] fold_pieces(s, first)[i]) <= 75,
    decreases s.len(),
{
    if s.len() > 0 {
        let budget: int = if first { 75 } else { 74 };
        let n = fit(s, budget);
        lemma_fit_bounds(s, budget);
        if n > 0 {
            let rest = s.skip(n);
            lemma_fold_pieces(rest, false);
            let head: Seq<char> = (if first { Seq::empty() } else { seq![' '] }) + s.take(n);
            let ps = fold_pieces(s, first);
            assert(ps == seq![head] + fold_pieces(rest, false));
            assert(ps.drop_first() =~= fold_pieces(rest, false));
            assert(ps[0] == head);
            assert(octets(head) <= 75) by {
                if !first {
                    lemma_octets_space(s.take(n));
                } else {
                    assert(head =~= s.take(n));
                }
            }
            assert forall|i: int| 0 <= i < ps.len() implies octets(#[trigger] ps[i]) <= 75 by {
                if i > 0 {
                    assert(ps[i] == fold_pieces(rest, false)[i - 1]);
                }
            }
        }
    }
}

/// Folding writes each logical line as CRLF-terminated physical lines of at
/// most 75 octets each.
pub proof fn law_folded_lines_fit(s: Seq<char>)
    requires
        s.len() > 0,
    ensures
        fold_spec(s) == join_crlf(fold_pieces(s, true)),
        forall|i: int| 0 <= i < fold_pieces(s, true).len() ==> octets(#[trigger] fold_pieces(s, true)[i]) <= 75,
{
    lemma_fold_pieces(s, true);
}

/// `c` does not occur in `s`.
pub open spec fn lacks_char(s: Seq<char>, c: char) -> bool {
    forall|k: int| 0 <= k < s.len() ==> s[k] != c
}

pub(crate) proof fn lemma_split_c_single(a: Seq<char>, c: char)
    requires
        lacks_char(a, c),
    ensures
        split_c(a, c) == seq![a],
    decreases a.len(),
{
    if a.len() > 0 {
        lemma_split_c_single(a.drop_last(), c);
        assert(a.drop_last().push(a.last()) =~= a);
    } else {
        assert(a =~= Seq::<char>::empty());
    }
}

pub(crate) proof fn lemma_split_c_after(a: Seq<char>, b: Seq<char>, c: char)
    requires
        lacks_char(a, c),
    ensures
        split_c(a + seq![c] + b, c) == seq![a] + split_c(b, c),
    decreases b.len(),
{
    if b.len() == 0 {
        lemma_split_c_single(a, c);
        assert((a + seq![c] + b).drop_last() =~= a);
        assert(split_c(a, c).push(Seq::<char>::empty()) =~= seq![a] + split_c(b, c));
    } else {
        lemma_split_c_after(a, b.drop_last(), c);
        let x = a + seq![c] + b;
        assert(x.drop_last() =~= a + seq![c] + b.drop_last());
        assert(x.last() == b.last());
        lemma_split_c_nonempty(b.drop_last(), c);
        let q = split_c(b.drop_last(), c);
        if b.last() == c {
            assert((seq![a] + q).push(Seq::<char>::empty()) =~= seq![a] + q.push(Seq::<char>::empty()));
        } else {
            let p = seq![a] + q;
            assert(p.last() == q.last());
            assert(p.update(p.len() - 1, p.last().push(b.last())) =~= seq![a] + q.update(q.len() - 1, q.last().push(
                b.last(),
            )));
        }
    }
}

/// Unfolding, one raw line after another from the front.
pub open spec fn unfold_from(out: Seq<Seq<char>>, raws: Seq<Seq<char>>) -> Seq<Seq<char>>
    decreases raws.len(),
{
    if raws.len() == 0 {
        out
    } else {
        unfold_from(unfold_step(out, raws[0]), raws.drop_first())
    }
}

proof fn lemma_unfold_from_push(out: Seq<Seq<char>>, raws: Seq<Seq<char>>, r: Seq<char>)
    ensures
        unfold_from(out, raws.push(r)) == unfold_step(unfold_from(out, raws), r),
    decreases raws.len(),
{
    if raws.len() == 0 {
        assert(raws.push(r).drop_first() =~= Seq::<Seq<char>>::empty());
        assert(raws.push(r)[0] == r);
        assert(unfold_from(unfold_step(out, r), Seq::<Seq<char>>::empty()) == unfold_step(out, r));
    } else {
        assert(raws.push(r).drop_first() =~= raws.drop_first().push(r));
        assert(raws.push(r)[0] == raws[0]);
        lemma_unfold_from_push(unfold_step(out, raws[0]), raws.drop_first(), r);
    }
}

pub(crate) proof fn lemma_unfold_lines_from(raws: Seq<Seq<char>>)
    ensures
        unfold_lines(raws) == unfold_from(Seq::empty(), raws),
    decreases raws.len(),
{
    if raws.len() > 0 {
        lemma_unfold_lines_from(raws.drop_last());
        lemma_unfold_from_push(Seq::empty(), raws.drop_last(), raws.last());
        assert(raws.drop_last().push(raws.last()) =~= raws);
    }
}

proof fn lemma_unfold_continuations(out: Seq<Seq<char>>, t: Seq<char>)
    requires
        out.len() > 0,
        out.last().len() > 0,
        lacks_char(t, '\n'),
    ensures
        unfold_from(out, split_c(fold_rest(t, false), '\n')) == out.update(out.len() - 1, out.last() + t).push(
            Seq::<char>::empty(),
        ),
    decreases t.len(),
{
    lemma_fit_bounds(t, 74);
    if t.len() == 0 {
        assert(fold_rest(t, false) =~= Seq::<char>::empty());
        assert(split_c(Seq::<char>::empty(), '\n') =~= seq![Seq::<char>::empty()]);
        let raws = seq![Seq::<char>::empty()];
        assert(raws.drop_first() =~= Seq::<Seq<char>>::empty());
        assert(strip_cr(Seq::<char>::empty()) =~= Seq::<char>::empty());
        assert(out.last() + t =~= out.last());
        assert(out.update(out.len() - 1, out.last()) =~= out);
        assert(raws[0] == Seq::<char>::empty());
        assert(unfold_step(out, Seq::<char>::empty()) == out.push(Seq::<char>::empty()));
        assert(unfold_from(out, raws) == unfold_from(unfold_step(out, raws[0]), raws.drop_first()));
        assert(unfold_from(out.push(Seq::<char>::empty()), Seq::<Seq<char>>::empty()) == out.push(Seq::<char>::empty()));
    } else {
        let n = fit(t, 74);
        let chunk = t.take(n);
        let rest = t.skip(n);
        let a = seq![' '] + chunk + seq!['\r'];
        assert(fold_rest(t, false) =~= a + seq!['\n'] + fold_rest(rest, false));
        assert(lacks_char(a, '\n')) by {
            assert forall|k: int| 0 <= k < a.len() implies a[k] != '\n' by {
                if 1 <= k < a.len() - 1 {
                    assert(a[k] == t[k - 1]);
                }
            }
        }
        lemma_split_c_after(a, fold_rest(rest, false), '\n');
        let raws = seq![a] + split_c(fold_rest(rest, false), '\n');
        assert(raws[0] == a);
        assert(raws.drop_first() =~= split_c(fold_rest(rest, false), '\n'));
        assert(strip_cr(a) =~= seq![' '] + chunk);
        let line = strip_cr(a);
        assert(line[0] == ' ');
        assert(line.drop_first() =~= chunk);
        let out2 = out.update(out.len() - 1, out.last() + chunk);
        assert(unfold_step(out, a) == out2);
        assert(lacks_char(rest, '\n')) by {
            assert forall|k: int| 0 <= k < rest.len() implies rest[k] != '\n' by {
                assert(rest[k] == t[k + n]);
            }
        }
        lemma_unfold_continuations(out2, rest);
        assert(unfold_from(out, raws) == unfold_from(unfold_step(out, raws[0]), raws.drop_first()));
        assert(chunk + rest =~= t);
        assert(out2.last() == out.last() + chunk);
        assert(out2.last() + rest =~= out.last() + t);
        assert(out2.update(out2.len() - 1, out2.last() + rest) =~= out.update(out.len() - 1, out.last() + t));
    }
}

/// Unfolding what folding wrote gives the logical line back (followed by
/// the empty line that the final CRLF ends), for every non-empty line
/// without a line feed.
pub proof fn law_unfold_fold(s: Seq<char>)
    requires
        s.len() > 0,
        lacks_char(s, '\n'),
    ensures
        unfold_spec(fold_spec(s)) == seq![s, Seq::<char>::empty()],
{
    lemma_fit_bounds(s, 75);
    let n = fit(s, 75);
    let first = s.take(n);
    let rest = s.skip(n);
    let a = first + seq!['\r'];
    assert(fold_spec(s) =~= a + seq!['\n'] + fold_rest(rest, false));
    assert(lacks_char(a, '\n')) by {
        assert forall|k: int| 0 <= k < a.len() implies a[k] != '\n' by {
            if k < a.len() - 1 {
                assert(a[k] == s[k]);
            }
        }
    }
    lemma_split_c_after(a, fold_rest(rest, false), '\n');
    let raws = seq![a] + split_c(fold_rest(rest, false), '\n');
    lemma_unfold_lines_from(raws);
    assert(raws[0] == a);
    assert(raws.drop_first() =~= split_c(fold_rest(rest, false), '\n'));
    assert(strip_cr(a) =~= first);
    let out = unfold_step(Seq::<Seq<char>>::empty(), a);
    assert(out =~= seq![first]);
    assert(lacks_char(rest, '\n')) by {
        assert forall|k: int| 0 <= k < rest.len() implies rest[k] != '\n' by {
            assert(rest[k] == s[k + n]);
        }
    }
    lemma_unfold_continuations(out, rest);
    assert(first + rest =~= s);
    assert(out.update(0, out.last() + rest) =~= seq![s]);
}

/// `name params ":" value` — the unfolded text of a content line.
pub open spec fn render(l: LineV) -> Seq<char> {
    l.name + l.params + seq![':'] + l.value
}

pub open spec fn ser_lines(ls: Seq<LineV>) -> Seq<char>
    decreases ls.len(),
{
    if ls.len() == 0 {
        Seq::empty()
    } else {
        ser_lines(ls.drop_last()) + fold_spec(render(ls.last()))
    }
}

/// Serialized text of a sequence of components.
pub open spec fn ser_comps(cs: Seq<CompV>) -> Seq<char>
    decreases cs,
{
    if cs.len() == 0 {
        Seq::empty()
    } else {
        let c = cs.last();
        ser_comps(cs.drop_last()) + fold_spec(begin_kw().push(':') + c.name) + ser_lines(c.lines)
            + ser_comps(c.children) + fold_spec(end_kw().push(':') + c.name)
    }
}

} // verus!

verus! {

/// Serialized text of one component.
pub open spec fn ser_one(c: CompV) -> Seq<char> {
    ser_comps(seq![c])
}

proof fn lemma_ser_comps_push(cs: Seq<CompV>, c: CompV)
    ensures
        ser_comps(cs.push(c)) == ser_comps(cs) + ser_one(c),
{
    assert(cs.push(c).drop_last() =~= cs);
    assert(seq![c].drop_last() =~= Seq::<CompV>::empty());
    assert(ser_comps(Seq::<CompV>::empty()) == Seq::<char>::empty());
    assert(ser_one(c) =~= fold_spec(begin_kw().push(':') + c.name) + ser_lines(c.lines) + ser_comps(c.children)
        + fold_spec(end_kw().push(':') + c.name));
    assert(ser_comps(cs.push(c)) =~= ser_comps(cs) + ser_one(c));
}

fn keyword_line(begin: bool, name: &str) -> (r: String)
    ensures
        r@ == (if begin { begin_kw() } else { end_kw() }).push(':') + name@,
{
    let mut r = String::new();
    if begin {
        push_char(&mut r, 'B');
        push_char(&mut r, 'E');
        push_char(&mut r, 'G');
        push_char(&mut r, 'I');
        push_char(&mut r, 'N');
    } else {
        push_char(&mut r, 'E');
        push_char(&mut r, 'N');
        push_char(&mut r, 'D');
    }
    push_char(&mut r, ':');
    r.append(name);
    proof {
        assert(r@ =~= (if begin { begin_kw() } else { end_kw() }).push(':') + name@);
    }
    r
}

fn render_line(l: &Line) -> (r: String)
    ensures
        r@ == render(l@),
{
    let mut r = copy_str(l.name.as_str());
    r.append(l.params.as_str());
    push_char(&mut r, ':');
    r.append(l.value.as_str());
    proof {
        assert(r@ =~= render(l@));
    }
    r
}

fn write_component(c: &Component, out: &mut String)
    ensures
        final(out)@ == old(out)@ + ser_one(c@),
    decreases c,
{
    proof {
        lemma_comp_view_fields(*c);
    }
    let b = keyword_line(true, c.name.as_str());
    fold(b.as_str(), out);
    let ghost after_begin = out@;
    let ghost lv = lines_view(c.lines@);
    let mut i: usize = 0;
    proof {
        assert(lv.take(0) =~= Seq::<LineV>::empty());
        assert(out@ =~= after_begin + ser_lines(lv.take(0)));
    }
    while i < c.lines.len()
        invariant
            0 <= i <= c.lines@.len(),
            lv == lines_view(c.lines@),
            out@ == after_begin + ser_lines(lv.take(i as int)),
        decreases c.lines.len() - i,
    {
        let t = render_line(&c.lines[i]);
        fold(t.as_str(), out);
        proof {
            assert(lv.take(i + 1).drop_last() =~= lv.take(i as int));
            assert(lv.take(i + 1).last() == c.lines@[i as int]@);
            assert(out@ =~= after_begin + ser_lines(lv.take(i + 1)));
        }
        i = i + 1;
    }
    let ghost after_lines = out@;
    let ghost cv = comps_view(c.children@);
    let mut k: usize = 0;
    proof {
        assert(lv.take(lv.len() as int) =~= lv);
        assert(cv.take(0) =~= Seq::<CompV>::empty());
        assert(out@ =~= after_lines + ser_comps(cv.take(0)));
    }
    while k < c.children.len()
        invariant
            0 <= k <= c.children@.len(),
            cv == comps_view(c.children@),
            out@ == after_lines + ser_comps(cv.take(k as int)),
        decreases c.children.len() - k,
    {
        let ch = &c.children[k];
        write_component(ch, out);
        proof {
            assert(cv.take(k + 1) =~= cv.take(k as int).push(comp_view(*ch)));
            lemma_ser_comps_push(cv.take(k as int), comp_view(*ch));
        }
        k = k + 1;
    }
    proof {
        assert(cv.take(cv.len() as int) =~= cv);
    }
    let e = keyword_line(false, c.name.as_str());
    fold(e.as_str(), out);
    proof {
        let x = comp_view(*c);
        assert(seq![x].drop_last() =~= Seq::<CompV>::empty());
        assert(seq![x].last() == x);
        assert(ser_comps(Seq::<CompV>::empty()) == Seq::<char>::empty());
        assert(out@ =~= old(out)@ + ser_one(c@));
    }
}

/// Serialize components back to a CRLF-delimited, folded document.
pub fn serialize(roots: &[Component]) -> (r: String)
    ensures
        r@ == ser_comps(comps_view(roots@)),
{
    let ghost cv = comps_view(roots@);
    let mut out = String::new();
    let mut i: usize = 0;
    proof {
        assert(cv.take(0) =~= Seq::<CompV>::empty());
    }
    while i < roots.len()
        invariant
            0 <= i <= roots@.len(),
            cv == comps_view(roots@),
            out@ == ser_comps(cv.take(i as int)),
        decreases roots.len() - i,
    {
        write_component(&roots[i], &mut out);
        proof {
            assert(cv.take(i + 1) =~= cv.take(i as int).push(comp_view(roots@[i as int])));
            lemma_ser_comps_push(cv.take(i as int), comp_view(roots@[i as int]));
        }
        i = i + 1;
    }
    proof {
        assert(cv.take(cv.len() as int) =~= cv);
    }
    out
}

} // verus!
