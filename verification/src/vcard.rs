//! vCard (RFC 6350 / 3.0) ⇄ display model for contacts. Reading pulls the
//! common fields; writing patches an existing card (preserving PHOTO, ADR,
//! BDAY, CATEGORIES, X-* …) or builds a fresh vCard 3.0.

use vstd::prelude::*;
use crate::contentline::{
    comps_view, escape_spec, escape_text, first_child, first_line, lemma_comp_view_fields, param_spec, parse,
    parse_spec, remove_named, serialize, ser_comps, set_line, split_c, split_ranges, unescape_spec,
    unescape_text, CompV, Component, Line, LineV,
};
use crate::clock::{clock_fields_ok, utc_stamp, ClockFields};
use crate::text::{
    eq_ic,
    chars_of, copy_str, lower_seq, lower_string, opt_view, push_char, string_of, trim_bounds,
    trim_str, trim_ws, upper_seq, upper_string,
};

verus! {

/// A `TYPE`d value — an email address or phone number with its label.
pub struct TypedValue {
    /// e.g. `home`, `work`, `cell` (lower-cased for display).
    pub label: String,
    pub value: String,
}

pub struct TypedV {
    pub label: Seq<char>,
    pub value: Seq<char>,
}

impl View for TypedValue {
    type V = TypedV;

    open spec fn view(&self) -> TypedV {
        TypedV { label: self.label@, value: self.value@ }
    }
}

pub open spec fn typed_view(vs: Seq<TypedValue>) -> Seq<TypedV> {
    Seq::new(vs.len(), |i: int| vs[i]@)
}

/// A contact as shown/edited in the UI.
pub struct Contact {
    pub uid: String,
    pub href: String,
    pub etag: String,
    pub addressbook_id: String,
    pub full_name: String,
    pub emails: Vec<TypedValue>,
    pub phones: Vec<TypedValue>,
    pub org: Option<String>,
    pub title: Option<String>,
    pub note: Option<String>,
}

pub struct ContactV {
    pub uid: Seq<char>,
    pub href: Seq<char>,
    pub etag: Seq<char>,
    pub addressbook_id: Seq<char>,
    pub full_name: Seq<char>,
    pub emails: Seq<TypedV>,
    pub phones: Seq<TypedV>,
    pub org: Option<Seq<char>>,
    pub title: Option<Seq<char>>,
    pub note: Option<Seq<char>>,
}

impl View for Contact {
    type V = ContactV;

    open spec fn view(&self) -> ContactV {
        ContactV {
            uid: self.uid@,
            href: self.href@,
            etag: self.etag@,
            addressbook_id: self.addressbook_id@,
            full_name: self.full_name@,
            emails: typed_view(self.emails@),
            phones: typed_view(self.phones@),
            org: opt_view(self.org),
            title: opt_view(self.title),
            note: opt_view(self.note),
        }
    }
}

/// Contact fields from the editor UI.
pub struct ContactInput {
    pub full_name: String,
    pub emails: Vec<TypedValue>,
    pub phones: Vec<TypedValue>,
    pub org: Option<String>,
    pub title: Option<String>,
    pub note: Option<String>,
}

pub struct ContactInputV {
    pub full_name: Seq<char>,
    pub emails: Seq<TypedV>,
    pub phones: Seq<TypedV>,
    pub org: Option<Seq<char>>,
    pub title: Option<Seq<char>>,
    pub note: Option<Seq<char>>,
}

impl View for ContactInput {
    type V = ContactInputV;

    open spec fn view(&self) -> ContactInputV {
        ContactInputV {
            full_name: self.full_name@,
            emails: typed_view(self.emails@),
            phones: typed_view(self.phones@),
            org: opt_view(self.org),
            title: opt_view(self.title),
            note: opt_view(self.note),
        }
    }
}

// ---------------------------------------------------------------------------
// Names used in the spec
// ---------------------------------------------------------------------------

pub open spec fn kw(s: &str) -> Seq<char> {
    s@
}

/// The raw value of the first line named `name`.
pub open spec fn value_of(c: CompV, name: Seq<char>) -> Option<Seq<char>> {
    match first_line(c.lines, name, 0) {
        Some(i) => Some(c.lines[i].value),
        None => None,
    }
}

/// `Some(s)` only when `s` is non-empty.
pub open spec fn non_empty(o: Option<Seq<char>>) -> Option<Seq<char>> {
    match o {
        Some(s) => if s.len() > 0 {
            Some(s)
        } else {
            None
        },
        None => None,
    }
}

pub open spec fn map_unescape(o: Option<Seq<char>>) -> Option<Seq<char>> {
    match o {
        Some(s) => Some(unescape_spec(s)),
        None => None,
    }
}

pub open spec fn or_default(o: Option<Seq<char>>) -> Seq<char> {
    match o {
        Some(s) => s,
        None => Seq::empty(),
    }
}

/// Display name from a structured `N:Last;First;Middle;Prefix;Suffix`.
pub open spec fn name_from_n_spec(n: Seq<char>) -> Seq<char> {
    let parts = split_c(n, ';');
    let last = trim_ws(parts[0]);
    let first = if parts.len() > 1 {
        trim_ws(parts[1])
    } else {
        Seq::empty()
    };
    trim_ws(first + seq![' '] + last)
}

/// The middle dot used to join `ORG` components for display.
pub open spec fn org_sep() -> Seq<char> {
    seq![' ', '\u{B7}', ' ']
}

/// `s` with every `;` replaced by ` · `.
pub open spec fn replace_semis(s: Seq<char>) -> Seq<char>
    decreases s.len(),
{
    if s.len() == 0 {
        Seq::empty()
    } else {
        replace_semis(s.drop_last()) + if s.last() == ';' {
            org_sep()
        } else {
            seq![s.last()]
        }
    }
}

/// All lines named `name` with a non-empty unescaped value, with their
/// lower-cased `TYPE` label.
pub open spec fn typed_values_spec(ls: Seq<LineV>, name: Seq<char>) -> Seq<TypedV>
    decreases ls.len(),
{
    if ls.len() == 0 {
        Seq::empty()
    } else {
        let r = typed_values_spec(ls.drop_last(), name);
        let l = ls.last();
        let v = unescape_spec(l.value);
        if crate::text::eq_ic(l.name, name) && v.len() > 0 {
            r.push(TypedV { label: lower_seq(or_default(param_spec(l.params, kw("TYPE")))), value: v })
        } else {
            r
        }
    }
}

pub open spec fn full_name_spec(card: CompV) -> Seq<char> {
    match non_empty(map_unescape(value_of(card, kw("FN")))) {
        Some(f) => f,
        None => match value_of(card, kw("N")) {
            Some(n) => name_from_n_spec(n),
            None => Seq::empty(),
        },
    }
}

pub open spec fn org_spec(card: CompV) -> Option<Seq<char>> {
    match value_of(card, kw("ORG")) {
        Some(v) => non_empty(Some(trim_ws(unescape_spec(replace_semis(v))))),
        None => None,
    }
}

/// The display contact read from a VCARD component.
pub open spec fn contact_of(card: CompV, ab: Seq<char>, href: Seq<char>, etag: Seq<char>) -> ContactV {
    ContactV {
        uid: or_default(value_of(card, kw("UID"))),
        href,
        etag,
        addressbook_id: ab,
        full_name: full_name_spec(card),
        emails: typed_values_spec(card.lines, kw("EMAIL")),
        phones: typed_values_spec(card.lines, kw("TEL")),
        org: org_spec(card),
        title: non_empty(map_unescape(value_of(card, kw("TITLE")))),
        note: non_empty(map_unescape(value_of(card, kw("NOTE")))),
    }
}

// ---------------------------------------------------------------------------
// Reading
// ---------------------------------------------------------------------------

pub fn value_exec(c: &Component, name: &str) -> (r: Option<String>)
    ensures
        opt_view(r) == value_of(c@, name@),
{
    match c.value(name) {
        Some(v) => Some(copy_str(v)),
        None => None,
    }
}

pub fn non_empty_exec(o: Option<String>) -> (r: Option<String>)
    ensures
        opt_view(r) == non_empty(opt_view(o)),
{
    match o {
        Some(s) => if s.as_str().is_empty() {
            None
        } else {
            Some(s)
        },
        None => None,
    }
}

pub fn unescape_opt(o: Option<String>) -> (r: Option<String>)
    ensures
        opt_view(r) == map_unescape(opt_view(o)),
{
    match o {
        Some(s) => Some(unescape_text(s.as_str())),
        None => None,
    }
}

/// Derive a display name from a structured `N:Last;First;Middle;Prefix;Suffix`.
pub fn name_from_n(n: &str) -> (r: String)
    ensures
        r@ == name_from_n_spec(n@),
{
    let v = chars_of(n);
    let parts = split_ranges(&v, ';');
    proof {
        crate::contentline::lemma_split_c_nonempty(v@, ';');
    }
    let (l0, l1) = parts[0];
    let (la, lb) = trim_bounds(&v, l0, l1);
    let mut s = String::new();
    if parts.len() > 1 {
        let (f0, f1) = parts[1];
        let (fa, fb) = trim_bounds(&v, f0, f1);
        crate::text::push_range(&mut s, &v, fa, fb);
    }
    push_char(&mut s, ' ');
    crate::text::push_range(&mut s, &v, la, lb);
    let r = trim_str(s.as_str());
    proof {
        let parts_s = split_c(n@, ';');
        let first = if parts_s.len() > 1 { trim_ws(parts_s[1]) } else { Seq::empty() };
        assert(s@ =~= first + seq![' '] + trim_ws(parts_s[0]));
    }
    r
}

fn replace_semis_exec(s: &str) -> (r: String)
    ensures
        r@ == replace_semis(s@),
{
    let v = chars_of(s);
    let mut out = String::new();
    let mut i: usize = 0;
    while i < v.len()
        invariant
            0 <= i <= v@.len(),
            v@ == s@,
            out@ == replace_semis(v@.take(i as int)),
        decreases v.len() - i,
    {
        proof {
            assert(v@.take(i + 1).drop_last() =~= v@.take(i as int));
            assert(v@.take(i + 1).last() == v@[i as int]);
        }
        if v[i] == ';' {
            push_char(&mut out, ' ');
            push_char(&mut out, '\u{B7}');
            push_char(&mut out, ' ');
        } else {
            push_char(&mut out, v[i]);
        }
        proof {
            assert(out@ =~= replace_semis(v@.take(i + 1)));
        }
        i = i + 1;
    }
    proof {
        assert(v@.take(v@.len() as int) =~= v@);
    }
    out
}

/// Collect all `EMAIL`/`TEL` lines with their `TYPE` label.
pub fn typed_values(card: &Component, name: &str) -> (r: Vec<TypedValue>)
    ensures
        typed_view(r@) == typed_values_spec(card@.lines, name@),
{
    proof {
        lemma_comp_view_fields(*card);
    }
    let ghost ls = card@.lines;
    let mut out: Vec<TypedValue> = Vec::new();
    let mut i: usize = 0;
    while i < card.lines.len()
        invariant
            0 <= i <= card.lines@.len(),
            ls == crate::contentline::lines_view(card.lines@),
            typed_view(out@) == typed_values_spec(ls.take(i as int), name@),
        decreases card.lines.len() - i,
    {
        let l = &card.lines[i];
        proof {
            assert(ls.take(i + 1).drop_last() =~= ls.take(i as int));
            assert(ls.take(i + 1).last() == l@);
        }
        if l.is(name) {
            let v = unescape_text(l.value.as_str());
            if !v.as_str().is_empty() {
                let label = match l.param("TYPE") {
                    Some(t) => lower_string(t.as_str()),
                    None => lower_string(""),
                };
                proof {
                    reveal_strlit("");
                }
                let tv = TypedValue { label, value: v };
                let ghost before = out@;
                out.push(tv);
                proof {
                    assert(tv@.label == lower_seq(or_default(param_spec(l@.params, kw("TYPE")))));
                    assert(typed_view(out@) =~= typed_view(before).push(tv@));
                }
            }
        }
        proof {
            assert(typed_view(out@) == typed_values_spec(ls.take(i + 1), name@));
        }
        i = i + 1;
    }
    proof {
        assert(ls.take(ls.len() as int) =~= ls);
    }
    out
}

/// Parse one CardDAV object (a single VCARD) into a display contact.
pub fn parse_contact(vcf: &str, addressbook_id: &str, href: &str, etag: &str) -> (r: Option<Contact>)
    ensures
        r is Some <==> first_child(parse_spec(vcf@), kw("VCARD"), 0) is Some,
        r matches Some(c) ==> first_child(parse_spec(vcf@), kw("VCARD"), 0) matches Some(i)
            && c@ == contact_of(parse_spec(vcf@)[i], addressbook_id@, href@, etag@),
{
    let roots = parse(vcf);
    let holder = Component { name: String::new(), lines: Vec::new(), children: roots };
    proof {
        lemma_comp_view_fields(holder);
    }
    let card = match holder.child("VCARD") {
        Some(c) => c,
        None => return None,
    };
    let full_name = match non_empty_exec(unescape_opt(value_exec(card, "FN"))) {
        Some(f) => f,
        None => match value_exec(card, "N") {
            Some(n) => name_from_n(n.as_str()),
            None => String::new(),
        },
    };
    let emails = typed_values(card, "EMAIL");
    let phones = typed_values(card, "TEL");
    let org = match value_exec(card, "ORG") {
        Some(v) => {
            let rep = replace_semis_exec(v.as_str());
            let un = unescape_text(rep.as_str());
            non_empty_exec(Some(trim_str(un.as_str())))
        },
        None => None,
    };
    let uid = match value_exec(card, "UID") {
        Some(u) => u,
        None => String::new(),
    };
    let title = non_empty_exec(unescape_opt(value_exec(card, "TITLE")));
    let note = non_empty_exec(unescape_opt(value_exec(card, "NOTE")));
    Some(Contact {
        uid,
        href: copy_str(href),
        etag: copy_str(etag),
        addressbook_id: copy_str(addressbook_id),
        full_name,
        emails,
        phones,
        org,
        title,
        note,
    })
}

} // verus!

verus! {

// ---------------------------------------------------------------------------
// Writing
// ---------------------------------------------------------------------------

/// Index of the last occurrence of `c` in `s`.
pub open spec fn last_index(s: Seq<char>, c: char) -> Option<int>
    decreases s.len(),
{
    if s.len() == 0 {
        None
    } else if s.last() == c {
        Some(s.len() - 1)
    } else {
        last_index(s.drop_last(), c)
    }
}

pub proof fn lemma_last_index(s: Seq<char>, c: char)
    ensures
        last_index(s, c) matches Some(i) ==> 0 <= i < s.len() && s[i] == c
            && forall|k: int| i < k < s.len() ==> s[k] != c,
        last_index(s, c) is None ==> forall|k: int| 0 <= k < s.len() ==> s[k] != c,
    decreases s.len(),
{
    if s.len() > 0 && s.last() != c {
        lemma_last_index(s.drop_last(), c);
        assert forall|k: int| 0 <= k < s.len() - 1 implies s.drop_last()[k] == s[k] by {}
    }
}

/// `Full Name` → `Last;First;;;` (best-effort split on the last space).
pub open spec fn structured_name_spec(full: Seq<char>) -> Seq<char> {
    let f = trim_ws(full);
    match last_index(f, ' ') {
        Some(i) => escape_spec(f.skip(i + 1)) + seq![';'] + escape_spec(f.take(i)) + seq![';', ';', ';'],
        None => seq![';'] + escape_spec(f) + seq![';', ';', ';'],
    }
}

/// A typed `EMAIL`/`TEL` line: `;TYPE=<LABEL>` when the label is not blank.
pub open spec fn typed_line_spec(name: Seq<char>, label: Seq<char>, value: Seq<char>) -> LineV {
    let lab = trim_ws(label);
    LineV {
        name,
        params: if lab.len() == 0 {
            Seq::empty()
        } else {
            kw(";TYPE=") + upper_seq(lab)
        },
        value: escape_spec(trim_ws(value)),
    }
}

/// `ls` with a typed line appended for every entry whose value is not blank.
pub open spec fn push_typed(ls: Seq<LineV>, name: Seq<char>, tvs: Seq<TypedV>) -> Seq<LineV>
    decreases tvs.len(),
{
    if tvs.len() == 0 {
        ls
    } else {
        let r = push_typed(ls, name, tvs.drop_last());
        let t = tvs.last();
        if trim_ws(t.value).len() == 0 {
            r
        } else {
            r.push(typed_line_spec(name, t.label, t.value))
        }
    }
}

/// Set `name` to the escaped trimmed value, or remove it when absent or blank.
pub open spec fn set_or_remove_spec(c: CompV, name: Seq<char>, value: Option<Seq<char>>) -> CompV {
    match value {
        Some(v) => if trim_ws(v).len() > 0 {
            CompV {
                lines: set_line(c.lines, LineV { name, params: Seq::empty(), value: escape_spec(trim_ws(v)) }),
                ..c
            }
        } else {
            CompV { lines: remove_named(c.lines, name), ..c }
        },
        None => CompV { lines: remove_named(c.lines, name), ..c },
    }
}

pub open spec fn set_spec(c: CompV, l: LineV) -> CompV {
    CompV { lines: set_line(c.lines, l), ..c }
}

pub open spec fn plain(name: Seq<char>, value: Seq<char>) -> LineV {
    LineV { name, params: Seq::empty(), value }
}

/// The editable fields written onto a VCARD component.
pub open spec fn apply_input_spec(card: CompV, input: ContactInputV) -> CompV {
    let f = trim_ws(input.full_name);
    let c1 = set_spec(card, plain(kw("FN"), escape_spec(f)));
    let c2 = set_spec(c1, plain(kw("N"), structured_name_spec(f)));
    let c3 = CompV { lines: remove_named(remove_named(c2.lines, kw("EMAIL")), kw("TEL")), ..c2 };
    let c4 = CompV {
        lines: push_typed(push_typed(c3.lines, kw("EMAIL"), input.emails), kw("TEL"), input.phones),
        ..c3
    };
    let c5 = set_or_remove_spec(c4, kw("ORG"), input.org);
    let c6 = set_or_remove_spec(c5, kw("TITLE"), input.title);
    set_or_remove_spec(c6, kw("NOTE"), input.note)
}

/// A fresh vCard 3.0 component for `input`, stamped with revision `rev`.
pub open spec fn new_card_spec(input: ContactInputV, uid: Seq<char>, rev: Seq<char>) -> CompV {
    let c0 = CompV { name: kw("VCARD"), lines: Seq::empty(), children: Seq::empty() };
    let c1 = set_spec(c0, plain(kw("VERSION"), kw("3.0")));
    let c2 = set_spec(c1, plain(kw("PRODID"), kw("-//Cirrust//Cirrust CardDAV//EN")));
    let c3 = set_spec(c2, plain(kw("UID"), uid));
    set_spec(apply_input_spec(c3, input), plain(kw("REV"), rev))
}

/// Patched text of an existing vCard document, or `None` without a VCARD.
pub open spec fn apply_edit_spec(existing: Seq<char>, input: ContactInputV, rev: Seq<char>) -> Option<Seq<char>> {
    let roots = parse_spec(existing);
    match first_child(roots, kw("VCARD"), 0) {
        None => None,
        Some(i) => Some(
            ser_comps(roots.update(i, set_spec(apply_input_spec(roots[i], input), plain(kw("REV"), rev)))),
        ),
    }
}

/// `Full Name` → `Last;First;;;` (best-effort split on the last space).
pub fn structured_name(full: &str) -> (r: String)
    ensures
        r@ == structured_name_spec(full@),
{
    let t = trim_str(full);
    let v = chars_of(t.as_str());
    let mut i = v.len();
    proof {
        assert(v@.take(i as int) =~= v@);
    }
    while i > 0 && v[i - 1] != ' '
        invariant
            i <= v@.len(),
            last_index(v@, ' ') == last_index(v@.take(i as int), ' '),
        decreases i,
    {
        proof {
            assert(v@.take(i as int).drop_last() =~= v@.take(i - 1));
        }
        i = i - 1;
    }
    let mut r = String::new();
    if i > 0 {
        let sp = i - 1;
        proof {
            assert(v@.take(i as int).last() == ' ');
            assert(last_index(v@, ' ') == Some(sp as int));
        }
        let last = string_of(&v, i, v.len());
        let first = string_of(&v, 0, sp);
        let el = escape_text(last.as_str());
        let ef = escape_text(first.as_str());
        r.append(el.as_str());
        push_char(&mut r, ';');
        r.append(ef.as_str());
        push_char(&mut r, ';');
        push_char(&mut r, ';');
        push_char(&mut r, ';');
        proof {
            assert(v@.skip(sp + 1) =~= v@.subrange(i as int, v@.len() as int));
            assert(v@.take(sp as int) =~= v@.subrange(0, sp as int));
            assert(r@ =~= structured_name_spec(full@));
        }
    } else {
        proof {
            assert(v@.take(0) =~= Seq::<char>::empty());
        }
        let e = escape_text(t.as_str());
        push_char(&mut r, ';');
        r.append(e.as_str());
        push_char(&mut r, ';');
        push_char(&mut r, ';');
        push_char(&mut r, ';');
        proof {
            assert(r@ =~= structured_name_spec(full@));
        }
    }
    r
}

/// A typed `EMAIL`/`TEL` line.
pub fn typed_line(name: &str, label: &str, value: &str) -> (l: Line)
    ensures
        l@ == typed_line_spec(name@, label@, value@),
{
    let lab = trim_str(label);
    let params = if lab.as_str().is_empty() {
        String::new()
    } else {
        let up = upper_string(lab.as_str());
        let mut p = copy_str(";TYPE=");
        p.append(up.as_str());
        p
    };
    let v = trim_str(value);
    let ev = escape_text(v.as_str());
    Line::with_params(name, params.as_str(), ev.as_str())
}

/// Set `name` to the escaped trimmed value, or remove it when absent or blank.
pub fn set_or_remove(card: &mut Component, name: &str, value: Option<&str>)
    ensures
        final(card)@ == set_or_remove_spec(old(card)@, name@, match value {
            Some(v) => Some(v@),
            None => None,
        }),
{
    match value {
        Some(v) => {
            let t = trim_str(v);
            if t.as_str().is_empty() {
                card.remove(name);
            } else {
                let e = escape_text(t.as_str());
                card.set(Line::new(name, e.as_str()));
            }
        },
        None => card.remove(name),
    }
}

impl Component {
    /// Append a line at the end.
    pub fn push_line(&mut self, line: Line)
        ensures
            final(self)@ == (CompV { lines: old(self)@.lines.push(line@), ..old(self)@ }),
    {
        proof {
            lemma_comp_view_fields(*self);
        }
        let ghost before = self.lines@;
        self.lines.push(line);
        proof {
            lemma_comp_view_fields(*self);
            assert(crate::contentline::lines_view(self.lines@) =~= crate::contentline::lines_view(before).push(
                line@,
            ));
        }
    }
}

fn push_typed_exec(card: &mut Component, name: &str, tvs: &Vec<TypedValue>)
    ensures
        final(card)@ == (CompV { lines: push_typed(old(card)@.lines, name@, typed_view(tvs@)), ..old(card)@ }),
{
    let ghost tv = typed_view(tvs@);
    let mut i: usize = 0;
    proof {
        assert(tv.take(0) =~= Seq::<TypedV>::empty());
    }
    while i < tvs.len()
        invariant
            0 <= i <= tvs@.len(),
            tv == typed_view(tvs@),
            card@ == (CompV { lines: push_typed(old(card)@.lines, name@, tv.take(i as int)), ..old(card)@ }),
        decreases tvs.len() - i,
    {
        let t = &tvs[i];
        proof {
            assert(tv.take(i + 1).drop_last() =~= tv.take(i as int));
            assert(tv.take(i + 1).last() == t@);
        }
        let tr = trim_str(t.value.as_str());
        if !tr.as_str().is_empty() {
            let l = typed_line(name, t.label.as_str(), t.value.as_str());
            card.push_line(l);
        }
        i = i + 1;
    }
    proof {
        assert(tv.take(tv.len() as int) =~= tv);
    }
}

pub fn opt_as_str(o: &Option<String>) -> (r: Option<&str>)
    ensures
        match r {
            Some(v) => Some(v@),
            None => None::<Seq<char>>,
        } == opt_view(*o),
{
    match o {
        Some(s) => Some(s.as_str()),
        None => None,
    }
}

/// Write the editable fields onto a VCARD component.
pub fn apply_input(card: &mut Component, input: &ContactInput)
    ensures
        final(card)@ == apply_input_spec(old(card)@, input@),
{
    let f = trim_str(input.full_name.as_str());
    let ef = escape_text(f.as_str());
    card.set(Line::new("FN", ef.as_str()));
    let sn = structured_name(f.as_str());
    card.set(Line::new("N", sn.as_str()));
    card.remove("EMAIL");
    card.remove("TEL");
    push_typed_exec(card, "EMAIL", &input.emails);
    push_typed_exec(card, "TEL", &input.phones);
    set_or_remove(card, "ORG", opt_as_str(&input.org));
    set_or_remove(card, "TITLE", opt_as_str(&input.title));
    set_or_remove(card, "NOTE", opt_as_str(&input.note));
    proof {
        assert(trim_ws(trim_ws(input.full_name@)) == trim_ws(input.full_name@)) by {
            crate::text::lemma_trim_idempotent(input.full_name@);
        }
    }
}

/// Build a fresh vCard 3.0 for `input`, stamped with revision `rev`.
pub fn build_new_at(input: &ContactInput, uid: &str, rev: &str) -> (r: String)
    ensures
        r@ == ser_comps(seq![new_card_spec(input@, uid@, rev@)]),
{
    let mut card = Component::new("VCARD");
    card.set(Line::new("VERSION", "3.0"));
    card.set(Line::new("PRODID", "-//Cirrust//Cirrust CardDAV//EN"));
    card.set(Line::new("UID", uid));
    apply_input(&mut card, input);
    card.set(Line::new("REV", rev));
    let roots = vec![card];
    proof {
        assert(comps_view(roots@) =~= seq![card@]);
    }
    serialize(roots.as_slice())
}

/// Build a fresh vCard 3.0 for `input`. Returns the vcf text.
pub fn build_new(input: &ContactInput, uid: &str) -> (r: String)
    ensures
        exists|t: ClockFields| clock_fields_ok(t) && r@ == ser_comps(seq![new_card_spec(input@, uid@, utc_stamp(t))]),
{
    let t = crate::clock::utc_now();
    let rev = crate::clock::utc_stamp_text(t);
    build_new_at(input, uid, rev.as_str())
}

/// Patch an existing vCard, preserving properties not managed here, stamped
/// with revision `rev`.
pub fn apply_edit_at(existing_vcf: &str, input: &ContactInput, rev: &str) -> (r: Option<String>)
    ensures
        opt_view(r) == apply_edit_spec(existing_vcf@, input@, rev@),
{
    let mut roots = parse(existing_vcf);
    let holder = Component { name: String::new(), lines: Vec::new(), children: roots };
    proof {
        lemma_comp_view_fields(holder);
    }
    let idx = match holder.child_index("VCARD") {
        Some(i) => i,
        None => return None,
    };
    let mut roots = holder.children;
    let ghost rv = comps_view(roots@);
    let mut card = roots.remove(idx);
    apply_input(&mut card, input);
    card.set(Line::new("REV", rev));
    let ghost cv = card@;
    roots.insert(idx, card);
    proof {
        assert(comps_view(roots@) =~= rv.update(idx as int, cv));
    }
    Some(serialize(roots.as_slice()))
}

/// Patch an existing vCard, preserving properties not managed here.
/// Returns `None` if the body has no VCARD.
pub fn apply_edit(existing_vcf: &str, input: &ContactInput) -> (r: Option<String>)
    ensures
        r is Some <==> first_child(parse_spec(existing_vcf@), kw("VCARD"), 0) is Some,
        r matches Some(x) ==> exists|t: ClockFields| clock_fields_ok(t) && apply_edit_spec(
            existing_vcf@,
            input@,
            utc_stamp(t),
        ) == Some(x@),
{
    let t = crate::clock::utc_now();
    let rev = crate::clock::utc_stamp_text(t);
    apply_edit_at(existing_vcf, input, rev.as_str())
}

/// The properties an edit of a contact writes.
pub open spec fn managed_card_name(n: Seq<char>) -> bool {
    eq_ic(n, kw("FN")) || eq_ic(n, kw("N")) || eq_ic(n, kw("EMAIL")) || eq_ic(n, kw("TEL")) || eq_ic(n, kw("ORG"))
        || eq_ic(n, kw("TITLE")) || eq_ic(n, kw("NOTE")) || eq_ic(n, kw("REV"))
}

proof fn lemma_push_typed_keeps(ls: Seq<LineV>, name: Seq<char>, tvs: Seq<TypedV>, l: LineV)
    requires
        ls.contains(l),
    ensures
        push_typed(ls, name, tvs).contains(l),
    decreases tvs.len(),
{
    if tvs.len() > 0 {
        lemma_push_typed_keeps(ls, name, tvs.drop_last(), l);
        let r = push_typed(ls, name, tvs.drop_last());
        let q = choose|q: int| 0 <= q < r.len() && r[q] == l;
        let t = tvs.last();
        if trim_ws(t.value).len() != 0 {
            assert(r.push(typed_line_spec(name, t.label, t.value))[q] == l);
        }
    }
}

proof fn lemma_card_set_or_remove_keeps(c: CompV, name: Seq<char>, value: Option<Seq<char>>, l: LineV)
    requires
        c.lines.contains(l),
        !eq_ic(l.name, name),
    ensures
        set_or_remove_spec(c, name, value).lines.contains(l),
        set_or_remove_spec(c, name, value).children == c.children,
        set_or_remove_spec(c, name, value).name == c.name,
{
    match value {
        Some(v) => if trim_ws(v).len() > 0 {
            crate::contentline::lemma_set_line_keeps(
                c.lines,
                LineV { name, params: Seq::empty(), value: escape_spec(trim_ws(v)) },
                l,
            );
        } else {
            crate::contentline::lemma_remove_named_keeps(c.lines, name, l);
        },
        None => {
            crate::contentline::lemma_remove_named_keeps(c.lines, name, l);
        },
    }
}

/// Editing a contact keeps everything the editor does not manage: every
/// other property line (PHOTO, UID, X-…), every nested component and the
/// component itself.
pub proof fn law_card_edit_keeps_unmanaged(card: CompV, input: ContactInputV, rev: Seq<char>, l: LineV)
    requires
        card.lines.contains(l),
        !managed_card_name(l.name),
    ensures
        set_spec(apply_input_spec(card, input), plain(kw("REV"), rev)).lines.contains(l),
        set_spec(apply_input_spec(card, input), plain(kw("REV"), rev)).children == card.children,
        set_spec(apply_input_spec(card, input), plain(kw("REV"), rev)).name == card.name,
{
    let f = trim_ws(input.full_name);
    let c1 = set_spec(card, plain(kw("FN"), escape_spec(f)));
    crate::contentline::lemma_set_line_keeps(card.lines, plain(kw("FN"), escape_spec(f)), l);
    let c2 = set_spec(c1, plain(kw("N"), structured_name_spec(f)));
    crate::contentline::lemma_set_line_keeps(c1.lines, plain(kw("N"), structured_name_spec(f)), l);
    crate::contentline::lemma_remove_named_keeps(c2.lines, kw("EMAIL"), l);
    crate::contentline::lemma_remove_named_keeps(remove_named(c2.lines, kw("EMAIL")), kw("TEL"), l);
    let c3 = CompV { lines: remove_named(remove_named(c2.lines, kw("EMAIL")), kw("TEL")), ..c2 };
    lemma_push_typed_keeps(c3.lines, kw("EMAIL"), input.emails, l);
    lemma_push_typed_keeps(push_typed(c3.lines, kw("EMAIL"), input.emails), kw("TEL"), input.phones, l);
    let c4 = CompV {
        lines: push_typed(push_typed(c3.lines, kw("EMAIL"), input.emails), kw("TEL"), input.phones),
        ..c3
    };
    lemma_card_set_or_remove_keeps(c4, kw("ORG"), input.org, l);
    let c5 = set_or_remove_spec(c4, kw("ORG"), input.org);
    lemma_card_set_or_remove_keeps(c5, kw("TITLE"), input.title, l);
    let c6 = set_or_remove_spec(c5, kw("TITLE"), input.title);
    lemma_card_set_or_remove_keeps(c6, kw("NOTE"), input.note, l);
    crate::contentline::lemma_set_line_keeps(apply_input_spec(card, input).lines, plain(kw("REV"), rev), l);
}

} // verus!
