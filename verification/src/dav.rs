//! A small `multistatus` reader for CalDAV and CardDAV (which are WebDAV with
//! extra namespaces): per response, its href, the props that came back with
//! a 2xx status keyed by lower-cased local tag name, the resource types, and
//! any `comp` names of a supported-component set. Namespaces are ignored.

use vstd::prelude::*;
use crate::pathmap::PathMap;
use crate::text::{copy_str, is_ws, lower_seq, opt_view, trim_str, trim_ws};
use crate::xml::{
    child_of, find_child, first_named_child, in_subtree, lemma_first_named_child, local, nodes_view, parse_xml,
    subtree_marks, xml_flat, XmlKind, XmlNode, XmlNodeV,
};

verus! {

pub open spec fn or_empty(o: Option<Seq<char>>) -> Seq<char> {
    match o {
        Some(s) => s,
        None => Seq::empty(),
    }
}

/// Concatenated text of the text nodes before `upto` in the subtree of `p`.
pub open spec fn text_concat(ns: Seq<XmlNodeV>, p: int, upto: int) -> Seq<char>
    decreases upto,
{
    if upto <= 0 || upto > ns.len() {
        Seq::empty()
    } else {
        let j = upto - 1;
        text_concat(ns, p, j) + if ns[j].kind == XmlKind::Text && in_subtree(ns, j, p) {
            or_empty(ns[j].text)
        } else {
            Seq::empty()
        }
    }
}

/// `name` attributes of the `comp` elements before `upto` in the subtree of `p`.
pub open spec fn comps_in(ns: Seq<XmlNodeV>, p: int, upto: int) -> Seq<Seq<char>>
    decreases upto,
{
    if upto <= 0 || upto > ns.len() {
        Seq::empty()
    } else {
        let j = upto - 1;
        let r = comps_in(ns, p, j);
        if in_subtree(ns, j, p) && local(ns[j]) == "comp"@ && ns[j].name_attr is Some {
            r.push(or_empty(ns[j].name_attr))
        } else {
            r
        }
    }
}

/// Local names of the element children of `p` before `upto`.
pub open spec fn rtypes_in(ns: Seq<XmlNodeV>, p: int, upto: int) -> Seq<Seq<char>>
    decreases upto,
{
    if upto <= 0 || upto > ns.len() {
        Seq::empty()
    } else {
        let j = upto - 1;
        let r = rtypes_in(ns, p, j);
        if child_of(ns, j, p) && ns[j].kind == XmlKind::Element {
            r.push(local(ns[j]))
        } else {
            r
        }
    }
}

/// What the element children of a `prop` node `q` before `upto` contribute:
/// `(props, comps, resource types)`.
pub open spec fn prop_items(ns: Seq<XmlNodeV>, q: int, upto: int) -> (
    Seq<(Seq<char>, Seq<char>)>,
    Seq<Seq<char>>,
    Seq<Seq<char>>,
)
    decreases upto,
{
    if upto <= 0 || upto > ns.len() {
        (Seq::empty(), Seq::empty(), Seq::empty())
    } else {
        let j = upto - 1;
        let r = prop_items(ns, q, j);
        if child_of(ns, j, q) && ns[j].kind == XmlKind::Element {
            let key = local(ns[j]);
            if key == "resourcetype"@ {
                (r.0, r.1, r.2 + rtypes_in(ns, j, ns.len() as int))
            } else if key == "supported-calendar-component-set"@ {
                (r.0, r.1 + comps_in(ns, j, ns.len() as int), r.2)
            } else {
                (r.0.push((key, trim_ws(text_concat(ns, j, ns.len() as int)))), r.1, r.2)
            }
        } else {
            r
        }
    }
}

pub open spec fn is_digit(c: char) -> bool {
    '0' <= c <= '9'
}

/// Whether a status line such as `HTTP/1.1 201 Created` reports success:
/// after trimming, the text following its first space starts with a
/// three-digit code from 200 to 299, alone or followed by white space.
pub open spec fn status_2xx(t: Seq<char>) -> bool {
    let tt = trim_ws(t);
    match crate::text::find(tt, seq![' ']) {
        Some(i) => {
            let c = tt.skip(i + 1);
            &&& c.len() >= 3
            &&& c[0] == '2'
            &&& is_digit(c[1])
            &&& is_digit(c[2])
            &&& (c.len() == 3 || is_ws(c[3]))
        },
        None => false,
    }
}

/// A `propstat` whose `status` reports a 2xx code.
pub open spec fn status_ok(ns: Seq<XmlNodeV>, ps: int) -> bool {
    match first_named_child(ns, ps, "status"@, 0) {
        Some(s) => match ns[s].text {
            Some(t) => status_2xx(t),
            None => false,
        },
        None => false,
    }
}

/// What the successful `propstat` children of response `r` before `upto`
/// contribute.
pub open spec fn response_items(ns: Seq<XmlNodeV>, r: int, upto: int) -> (
    Seq<(Seq<char>, Seq<char>)>,
    Seq<Seq<char>>,
    Seq<Seq<char>>,
)
    decreases upto,
{
    if upto <= 0 || upto > ns.len() {
        (Seq::empty(), Seq::empty(), Seq::empty())
    } else {
        let j = upto - 1;
        let acc = response_items(ns, r, j);
        if child_of(ns, j, r) && local(ns[j]) == "propstat"@ && status_ok(ns, j) {
            match first_named_child(ns, j, "prop"@, 0) {
                Some(q) => {
                    let it = prop_items(ns, q, ns.len() as int);
                    (acc.0 + it.0, acc.1 + it.1, acc.2 + it.2)
                },
                None => acc,
            }
        } else {
            acc
        }
    }
}

/// The trimmed text of a response's `href`.
pub open spec fn href_of(ns: Seq<XmlNodeV>, r: int) -> Seq<char> {
    match first_named_child(ns, r, "href"@, 0) {
        Some(h) => trim_ws(or_empty(ns[h].text)),
        None => Seq::empty(),
    }
}

/// One response as read: href, `(key, value)` props in document order (a
/// later key wins), component names, resource types.
pub struct ResponseV {
    pub href: Seq<char>,
    pub props: Seq<(Seq<char>, Seq<char>)>,
    pub comps: Seq<Seq<char>>,
    pub resourcetypes: Seq<Seq<char>>,
}

/// The responses with a non-empty href among the nodes before `upto`.
pub open spec fn responses_spec(ns: Seq<XmlNodeV>, upto: int) -> Seq<ResponseV>
    decreases upto,
{
    if upto <= 0 || upto > ns.len() {
        Seq::empty()
    } else {
        let j = upto - 1;
        let acc = responses_spec(ns, j);
        if local(ns[j]) == "response"@ && href_of(ns, j).len() > 0 {
            let it = response_items(ns, j, ns.len() as int);
            acc.push(ResponseV { href: href_of(ns, j), props: it.0, comps: it.1, resourcetypes: it.2 })
        } else {
            acc
        }
    }
}

/// The value recorded last for `k` among `(key, value)` pairs.
pub open spec fn last_value(pairs: Seq<(Seq<char>, Seq<char>)>, k: Seq<char>) -> Option<Seq<char>>
    decreases pairs.len(),
{
    if pairs.len() == 0 {
        None
    } else if pairs.last().0 == k {
        Some(pairs.last().1)
    } else {
        last_value(pairs.drop_last(), k)
    }
}

/// One `<d:response>` of a `multistatus` body.
pub struct DavResponse {
    pub href: String,
    /// Props that came back with a 2xx status, keyed by lower-cased local
    /// tag name.
    pub props: PathMap<String>,
    pub comps: Vec<String>,
    pub resourcetypes: Vec<String>,
}

pub open spec fn strings_view(v: Seq<String>) -> Seq<Seq<char>> {
    Seq::new(v.len(), |i: int| v[i]@)
}

impl DavResponse {
    pub open spec fn wf(&self) -> bool {
        self.props.wf()
    }

    /// This response reads as `r`.
    pub open spec fn reads_as(&self, r: ResponseV) -> bool {
        &&& self.wf()
        &&& self.href@ == r.href
        &&& strings_view(self.comps@) == r.comps
        &&& strings_view(self.resourcetypes@) == r.resourcetypes
        &&& forall|k: Seq<char>| #[trigger] opt_view(self.props.get_spec(k)) == last_value(r.props, k)
    }

    /// A prop's value, by case-insensitive local name.
    pub fn prop(&self, name: &str) -> (r: Option<&str>)
        requires
            self.wf(),
        ensures
            match r {
                Some(v) => self.props.get_spec(lower_seq(name@)) matches Some(s) && v@ == s@,
                None => self.props.get_spec(lower_seq(name@)) is None,
            },
    {
        let k = crate::text::lower_string(name);
        match self.props.get(k.as_str()) {
            Some(v) => Some(v.as_str()),
            None => None,
        }
    }

    /// Whether the resource has the given type (case-insensitively).
    pub fn is(&self, resourcetype: &str) -> (b: bool)
        ensures
            b == exists|i: int|
                0 <= i < self.resourcetypes@.len() && crate::text::eq_ic(
                    #[trigger] self.resourcetypes@[i]@,
                    resourcetype@,
                ),
    {
        let mut i: usize = 0;
        while i < self.resourcetypes.len()
            invariant
                0 <= i <= self.resourcetypes@.len(),
                forall|k: int| 0 <= k < i ==> !crate::text::eq_ic(#[trigger] self.resourcetypes@[k]@, resourcetype@),
            decreases self.resourcetypes@.len() - i,
        {
            if crate::text::eq_ic_str(self.resourcetypes[i].as_str(), resourcetype) {
                return true;
            }
            i = i + 1;
        }
        false
    }
}

fn subtree_text(ns: &Vec<XmlNode>, p: usize) -> (r: String)
    ensures
        r@ == trim_ws(text_concat(nodes_view(ns@), p as int, ns@.len() as int)),
{
    let ghost nv = nodes_view(ns@);
    let marks = subtree_marks(ns, p);
    let mut s = String::new();
    let mut j: usize = 0;
    while j < ns.len()
        invariant
            nv == nodes_view(ns@),
            marks@.len() == nv.len(),
            forall|x: int| 0 <= x < nv.len() ==> marks@[x] == in_subtree(nv, x, p as int),
            0 <= j <= nv.len(),
            s@ == text_concat(nv, p as int, j as int),
        decreases nv.len() - j,
    {
        proof {
            assert(nv[j as int] == ns@[j as int]@);
        }
        if ns[j].kind == XmlKind::Text && marks[j] {
            match &ns[j].text {
                Some(t) => s.append(t.as_str()),
                None => {},
            }
        }
        proof {
            assert(s@ =~= text_concat(nv, p as int, j + 1));
        }
        j = j + 1;
    }
    trim_str(s.as_str())
}

fn subtree_comps(ns: &Vec<XmlNode>, p: usize) -> (r: Vec<String>)
    ensures
        strings_view(r@) == comps_in(nodes_view(ns@), p as int, ns@.len() as int),
{
    let ghost nv = nodes_view(ns@);
    let marks = subtree_marks(ns, p);
    let mut out: Vec<String> = Vec::new();
    let mut j: usize = 0;
    while j < ns.len()
        invariant
            nv == nodes_view(ns@),
            marks@.len() == nv.len(),
            forall|x: int| 0 <= x < nv.len() ==> marks@[x] == in_subtree(nv, x, p as int),
            0 <= j <= nv.len(),
            strings_view(out@) == comps_in(nv, p as int, j as int),
        decreases nv.len() - j,
    {
        proof {
            assert(nv[j as int] == ns@[j as int]@);
        }
        if marks[j] {
            let l = crate::text::lower_string(ns[j].name.as_str());
            if crate::text::str_eq(l.as_str(), "comp") {
                match &ns[j].name_attr {
                    Some(a) => {
                        let ghost before = out@;
                        let c = copy_str(a.as_str());
                        out.push(c);
                        proof {
                            assert(strings_view(out@) =~= strings_view(before).push(c@));
                        }
                    },
                    None => {},
                }
            }
        }
        j = j + 1;
    }
    out
}

fn child_types(ns: &Vec<XmlNode>, p: usize) -> (r: Vec<String>)
    ensures
        strings_view(r@) == rtypes_in(nodes_view(ns@), p as int, ns@.len() as int),
{
    let ghost nv = nodes_view(ns@);
    let mut out: Vec<String> = Vec::new();
    let mut j: usize = 0;
    while j < ns.len()
        invariant
            nv == nodes_view(ns@),
            0 <= j <= nv.len(),
            strings_view(out@) == rtypes_in(nv, p as int, j as int),
        decreases nv.len() - j,
    {
        proof {
            assert(nv[j as int] == ns@[j as int]@);
        }
        let is_child = match ns[j].parent {
            Some(q) => q == p,
            None => false,
        };
        if is_child && ns[j].kind == XmlKind::Element {
            let ghost before = out@;
            let l = crate::text::lower_string(ns[j].name.as_str());
            out.push(l);
            proof {
                assert(strings_view(out@) =~= strings_view(before).push(l@));
            }
        }
        j = j + 1;
    }
    out
}

pub open spec fn pairs_view(v: Seq<(String, String)>) -> Seq<(Seq<char>, Seq<char>)> {
    Seq::new(v.len(), |i: int| (v[i].0@, v[i].1@))
}

fn push_prop_items(
    ns: &Vec<XmlNode>,
    q: usize,
    props: &mut Vec<(String, String)>,
    comps: &mut Vec<String>,
    rtypes: &mut Vec<String>,
)
    ensures
        ({
            let it = prop_items(nodes_view(ns@), q as int, ns@.len() as int);
            &&& pairs_view(final(props)@) == pairs_view(old(props)@) + it.0
            &&& strings_view(final(comps)@) == strings_view(old(comps)@) + it.1
            &&& strings_view(final(rtypes)@) == strings_view(old(rtypes)@) + it.2
        }),
{
    let ghost nv = nodes_view(ns@);
    let ghost p0 = pairs_view(props@);
    let ghost c0 = strings_view(comps@);
    let ghost t0 = strings_view(rtypes@);
    let mut j: usize = 0;
    while j < ns.len()
        invariant
            nv == nodes_view(ns@),
            0 <= j <= nv.len(),
            pairs_view(props@) == p0 + prop_items(nv, q as int, j as int).0,
            strings_view(comps@) == c0 + prop_items(nv, q as int, j as int).1,
            strings_view(rtypes@) == t0 + prop_items(nv, q as int, j as int).2,
        decreases nv.len() - j,
    {
        proof {
            assert(nv[j as int] == ns@[j as int]@);
        }
        let is_child = match ns[j].parent {
            Some(x) => x == q,
            None => false,
        };
        if is_child && ns[j].kind == XmlKind::Element {
            let key = crate::text::lower_string(ns[j].name.as_str());
            if crate::text::str_eq(key.as_str(), "resourcetype") {
                let ts = child_types(ns, j);
                let ghost before = strings_view(rtypes@);
                let mut k: usize = 0;
                while k < ts.len()
                    invariant
                        0 <= k <= ts@.len(),
                        strings_view(rtypes@) == before + strings_view(ts@).take(k as int),
                    decreases ts@.len() - k,
                {
                    let ghost b2 = rtypes@;
                    let c = copy_str(ts[k].as_str());
                    rtypes.push(c);
                    proof {
                        assert(strings_view(rtypes@) =~= strings_view(b2).push(c@));
                        assert(strings_view(ts@).take(k + 1) =~= strings_view(ts@).take(k as int).push(ts@[k as int]@));
                        assert(strings_view(rtypes@) =~= before + strings_view(ts@).take(k + 1));
                    }
                    k = k + 1;
                }
                proof {
                    assert(strings_view(ts@).take(ts@.len() as int) =~= strings_view(ts@));
                    assert(strings_view(rtypes@) =~= t0 + prop_items(nv, q as int, j + 1).2);
                }
            } else if crate::text::str_eq(key.as_str(), "supported-calendar-component-set") {
                let cs = subtree_comps(ns, j);
                let ghost before = strings_view(comps@);
                let mut k: usize = 0;
                while k < cs.len()
                    invariant
                        0 <= k <= cs@.len(),
                        strings_view(comps@) == before + strings_view(cs@).take(k as int),
                    decreases cs@.len() - k,
                {
                    let ghost b2 = comps@;
                    let c = copy_str(cs[k].as_str());
                    comps.push(c);
                    proof {
                        assert(strings_view(comps@) =~= strings_view(b2).push(c@));
                        assert(strings_view(cs@).take(k + 1) =~= strings_view(cs@).take(k as int).push(cs@[k as int]@));
                        assert(strings_view(comps@) =~= before + strings_view(cs@).take(k + 1));
                    }
                    k = k + 1;
                }
                proof {
                    assert(strings_view(cs@).take(cs@.len() as int) =~= strings_view(cs@));
                    assert(strings_view(comps@) =~= c0 + prop_items(nv, q as int, j + 1).1);
                }
            } else {
                let text = subtree_text(ns, j);
                let ghost before = props@;
                let pair = (key, text);
                props.push(pair);
                proof {
                    assert(pairs_view(props@) =~= pairs_view(before).push((pair.0@, pair.1@)));
                    assert(pairs_view(props@) =~= p0 + prop_items(nv, q as int, j + 1).0);
                }
            }
        }
        j = j + 1;
    }
}

/// Whether [`status_2xx`] holds of `t`.
pub fn status_line_2xx(t: &str) -> (b: bool)
    ensures
        b == status_2xx(t@),
{
    let tt = trim_str(t);
    let tv = crate::text::chars_of(tt.as_str());
    let sp = vec![' '];
    proof {
        assert(sp@ =~= seq![' ']);
    }
    match crate::text::find_exec(&tv, &sp, 0) {
        Some(i) => {
            proof {
                crate::text::lemma_find_from(tv@, sp@, 0);
            }
            let n = tv.len();
            if n - i < 4 {
                return false;
            }
            let ghost c = tv@.skip(i as int + 1);
            proof {
                assert(c.len() == n - i - 1);
                assert(c[0] == tv@[i + 1]);
                assert(c[1] == tv@[i + 2]);
                assert(c[2] == tv@[i + 3]);
            }
            let d1 = tv[i + 2];
            let d2 = tv[i + 3];
            if tv[i + 1] != '2' || !('0' <= d1 && d1 <= '9') || !('0' <= d2 && d2 <= '9') {
                return false;
            }
            if n - i == 4 {
                return true;
            }
            proof {
                assert(c[3] == tv@[i + 4]);
            }
            crate::text::is_ws_char(tv[i + 4])
        },
        None => false,
    }
}

fn status_is_ok(ns: &Vec<XmlNode>, ps: usize) -> (b: bool)
    ensures
        b == status_ok(nodes_view(ns@), ps as int),
{
    match find_child(ns, ps, "status") {
        Some(s) => {
            proof {
                lemma_first_named_child(nodes_view(ns@), ps as int, "status"@, 0);
                assert(nodes_view(ns@)[s as int] == ns@[s as int]@);
            }
            match &ns[s].text {
                Some(t) => status_line_2xx(t.as_str()),
                None => false,
            }
        },
        None => false,
    }
}

fn read_response(ns: &Vec<XmlNode>, r: usize, href: String) -> (d: DavResponse)
    ensures
        d.reads_as(
            ({
                let it = response_items(nodes_view(ns@), r as int, ns@.len() as int);
                ResponseV { href: href@, props: it.0, comps: it.1, resourcetypes: it.2 }
            }),
        ),
{
    let ghost nv = nodes_view(ns@);
    let mut props: Vec<(String, String)> = Vec::new();
    let mut comps: Vec<String> = Vec::new();
    let mut rtypes: Vec<String> = Vec::new();
    proof {
        assert(pairs_view(props@) =~= Seq::<(Seq<char>, Seq<char>)>::empty());
        assert(strings_view(comps@) =~= Seq::<Seq<char>>::empty());
        assert(strings_view(rtypes@) =~= Seq::<Seq<char>>::empty());
    }
    let mut j: usize = 0;
    while j < ns.len()
        invariant
            nv == nodes_view(ns@),
            0 <= j <= nv.len(),
            pairs_view(props@) == response_items(nv, r as int, j as int).0,
            strings_view(comps@) == response_items(nv, r as int, j as int).1,
            strings_view(rtypes@) == response_items(nv, r as int, j as int).2,
        decreases nv.len() - j,
    {
        proof {
            assert(nv[j as int] == ns@[j as int]@);
        }
        let is_child = match ns[j].parent {
            Some(x) => x == r,
            None => false,
        };
        let l = crate::text::lower_string(ns[j].name.as_str());
        if is_child && crate::text::str_eq(l.as_str(), "propstat") && status_is_ok(ns, j) {
            match find_child(ns, j, "prop") {
                Some(q) => {
                    push_prop_items(ns, q, &mut props, &mut comps, &mut rtypes);
                },
                None => {},
            }
        }
        j = j + 1;
    }
    let mut map: PathMap<String> = PathMap::new();
    let mut k: usize = 0;
    while k < props.len()
        invariant
            map.wf(),
            0 <= k <= props@.len(),
            forall|key: Seq<char>| #[trigger] opt_view(map.get_spec(key)) == last_value(pairs_view(props@).take(k as int), key),
        decreases props@.len() - k,
    {
        let (key, val) = (&props[k].0, &props[k].1);
        let v2 = copy_str(val.as_str());
        map.insert(key.as_str(), v2);
        proof {
            let t1 = pairs_view(props@).take(k + 1);
            assert(t1.drop_last() =~= pairs_view(props@).take(k as int));
            assert(t1.last() == (key@, val@));
        }
        k = k + 1;
    }
    proof {
        assert(pairs_view(props@).take(props@.len() as int) =~= pairs_view(props@));
    }
    DavResponse { href, props: map, comps, resourcetypes: rtypes }
}

/// Parse a WebDAV `multistatus` body into per-resource responses; `None`
/// means the text is not well-formed XML.
pub fn parse_multistatus(xml: &str) -> (r: Result<Vec<DavResponse>, String>)
    ensures
        match r {
            Ok(v) => xml_flat(xml@) matches Some(ns) && v@.len() == responses_spec(ns, ns.len() as int).len() && forall|
                i: int,
            | 0 <= i < v@.len() ==> #[trigger] v@[i].reads_as(responses_spec(ns, ns.len() as int)[i]),
            Err(_) => xml_flat(xml@) is None,
        },
{
    let ns = match parse_xml(xml) {
        Ok(ns) => ns,
        Err(e) => {
            let m = copy_str("invalid DAV XML: ");
            return Err(m.concat(e.as_str()));
        },
    };
    let ghost nv = nodes_view(ns@);
    let mut out: Vec<DavResponse> = Vec::new();
    let mut j: usize = 0;
    while j < ns.len()
        invariant
            nv == nodes_view(ns@),
            0 <= j <= nv.len(),
            out@.len() == responses_spec(nv, j as int).len(),
            forall|i: int| 0 <= i < out@.len() ==> #[trigger] out@[i].reads_as(responses_spec(nv, j as int)[i]),
        decreases nv.len() - j,
    {
        proof {
            assert(nv[j as int] == ns@[j as int]@);
        }
        let l = crate::text::lower_string(ns[j].name.as_str());
        if crate::text::str_eq(l.as_str(), "response") {
            let href = match find_child(&ns, j, "href") {
                Some(h) => {
                    proof {
                        lemma_first_named_child(nv, j as int, "href"@, 0);
                        assert(nv[h as int] == ns@[h as int]@);
                    }
                    match &ns[h].text {
                        Some(t) => trim_str(t.as_str()),
                        None => trim_str(""),
                    }
                },
                None => String::new(),
            };
            proof {
                reveal_strlit("");
            }
            if !href.as_str().is_empty() {
                let d = read_response(&ns, j, href);
                out.push(d);
            }
        }
        proof {
            assert forall|i: int| 0 <= i < out@.len() implies #[trigger] out@[i].reads_as(responses_spec(nv, j + 1)[i]) by {}
        }
        j = j + 1;
    }
    Ok(out)
}

/// What `url::Url::parse(s)` gives for the path of `s`, when `s` parses as
/// an absolute URL.
pub uninterp spec fn url_path(s: Seq<char>) -> Option<Seq<char>>;

/// `url::Url::parse(href).map(|u| u.path())`. Claims only that the result is
/// the one the url crate gives for `href`.
#[verifier::external_body]
fn parse_url_path(href: &str) -> (r: Option<String>)
    ensures
        opt_view(r) == url_path(href@),
{
    url::Url::parse(href).ok().map(|u| u.path().to_string())
}

/// What `percent_decode_str(s).decode_utf8_lossy()` gives.
pub uninterp spec fn percent_decoded(s: Seq<char>) -> Seq<char>;

/// `percent_encoding::percent_decode_str(s).decode_utf8_lossy()`, owned.
/// Claims only that the result is the one the crate gives for `s`.
#[verifier::external_body]
pub(crate) fn percent_decode(s: &str) -> (r: String)
    ensures
        r@ == percent_decoded(s@),
{
    percent_encoding::percent_decode_str(s).decode_utf8_lossy().into_owned()
}

pub open spec fn dav_marker() -> Seq<char> {
    "/remote.php/dav/"@
}

/// `s.split(pat).nth(1)`: the text between the first and the second
/// occurrence of `pat` (or to the end).
pub open spec fn second_piece(s: Seq<char>, pat: Seq<char>) -> Option<Seq<char>> {
    match crate::text::find_from(s, pat, 0) {
        None => None,
        Some(i) => {
            let rest = s.skip(i + pat.len());
            match crate::text::find_from(rest, pat, 0) {
                Some(j) => Some(rest.take(j)),
                None => Some(rest),
            }
        },
    }
}

/// The decoded path, relative to `/remote.php/dav/`, of a `multistatus`
/// href (server-absolute or a full URL), without trailing slashes.
pub open spec fn href_to_dav_path_spec(href: Seq<char>) -> Option<Seq<char>> {
    let path = match url_path(href) {
        Some(p) => p,
        None => href,
    };
    match second_piece(path, dav_marker()) {
        Some(rel) => Some(crate::text::trim_end_c(percent_decoded(rel), '/')),
        None => None,
    }
}

/// Convert a `multistatus` href into a decoded path relative to
/// `/remote.php/dav/`; `None` when it is not under the DAV root.
pub fn href_to_dav_path(href: &str) -> (r: Option<String>)
    ensures
        opt_view(r) == href_to_dav_path_spec(href@),
{
    let path = match parse_url_path(href) {
        Some(p) => p,
        None => copy_str(href),
    };
    let v = crate::text::chars_of(path.as_str());
    let pat = crate::text::chars_of("/remote.php/dav/");
    let i = match crate::text::find_exec(&v, &pat, 0) {
        Some(i) => i,
        None => return None,
    };
    proof {
        crate::text::lemma_find_from(v@, pat@, 0);
        assert(crate::text::occurs_at(v@, pat@, i as int));
        assert(i + pat@.len() <= v@.len());
    }
    let vl = v.len();
    let pl = pat.len();
    let start = i + pl;
    let rest = crate::text::string_of(&v, start, v.len());
    let rv = crate::text::chars_of(rest.as_str());
    proof {
        assert(v@.subrange(start as int, v@.len() as int) =~= v@.skip(i + pat@.len()));
    }
    let piece = match crate::text::find_exec(&rv, &pat, 0) {
        Some(j) => {
            proof {
                crate::text::lemma_find_from(rv@, pat@, 0);
                assert(rv@.subrange(0, j as int) =~= rv@.take(j as int));
            }
            crate::text::string_of(&rv, 0, j)
        },
        None => rest,
    };
    let decoded = percent_decode(piece.as_str());
    let dv = crate::text::chars_of(decoded.as_str());
    let b = crate::text::trim_end_bound(&dv, 0, dv.len(), '/');
    proof {
        assert(dv@.subrange(0, dv@.len() as int) =~= dv@);
    }
    Some(crate::text::string_of(&dv, 0, b))
}

} // verus!
