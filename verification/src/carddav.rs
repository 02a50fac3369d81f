//! CardDAV: which collections of the address-book home are address books,
//! how an addressbook-query answer turns into display contacts, and the
//! cache decisions of a refresh (the same model as [`crate::caldav`]).

use vstd::prelude::*;
use crate::caldav::{contains_str, has_ic, last_segment, last_segment_of, name_or, prop_of};
use crate::contentline::{first_child, parse_spec};
use crate::dav::{href_to_dav_path, href_to_dav_path_spec, strings_view, DavResponse};
use crate::text::{copy_str, str_eq};
use crate::vcard::{contact_of, kw, or_default, parse_contact, Contact, ContactInput, ContactV};

verus! {

/// An address-book collection.
pub struct AddressBookInfo {
    pub id: String,
    pub href: String,
    pub display_name: String,
    pub ctag: String,
}

/// Mathematical value of an [`AddressBookInfo`].
pub struct AddressBookInfoV {
    pub id: Seq<char>,
    pub href: Seq<char>,
    pub display_name: Seq<char>,
    pub ctag: Seq<char>,
}

impl View for AddressBookInfo {
    type V = AddressBookInfoV;

    open spec fn view(&self) -> AddressBookInfoV {
        AddressBookInfoV {
            id: self.id@,
            href: self.href@,
            display_name: self.display_name@,
            ctag: self.ctag@,
        }
    }
}

pub open spec fn books_view(v: Seq<AddressBookInfo>) -> Seq<AddressBookInfoV> {
    Seq::new(v.len(), |i: int| v[i]@)
}

/// The address book a PROPFIND response describes, when it is one under the
/// DAV root with a non-empty last segment.
pub open spec fn addressbook_of_spec(r: DavResponse) -> Option<AddressBookInfoV> {
    if !has_ic(r.resourcetypes@, "addressbook"@) {
        None
    } else {
        match href_to_dav_path_spec(r.href@) {
            None => None,
            Some(dav) => {
                let id = last_segment(dav);
                if id.len() == 0 {
                    None
                } else {
                    Some(
                        AddressBookInfoV {
                            id,
                            href: dav,
                            display_name: name_or(prop_of(r, "displayname"@), id),
                            ctag: or_default(prop_of(r, "getctag"@)),
                        },
                    )
                }
            },
        }
    }
}

/// The address books among `rs`, in order.
pub open spec fn addressbooks_spec(rs: Seq<DavResponse>) -> Seq<AddressBookInfoV>
    decreases rs.len(),
{
    if rs.len() == 0 {
        Seq::empty()
    } else {
        let prev = addressbooks_spec(rs.drop_last());
        match addressbook_of_spec(rs.last()) {
            Some(c) => prev.push(c),
            None => prev,
        }
    }
}

/// The address book one PROPFIND response of the address-book home describes.
pub fn addressbook_of(r: &DavResponse) -> (c: Option<AddressBookInfo>)
    requires
        r.wf(),
    ensures
        match c {
            Some(x) => addressbook_of_spec(*r) == Some(x@),
            None => addressbook_of_spec(*r) is None,
        },
{
    if !r.is("addressbook") {
        return None;
    }
    let dav = match href_to_dav_path(r.href.as_str()) {
        Some(d) => d,
        None => return None,
    };
    let id = last_segment_of(dav.as_str());
    if id.as_str().unicode_len() == 0 {
        return None;
    }
    let display_name = match r.prop("displayname") {
        Some(s) => if s.unicode_len() > 0 {
            copy_str(s)
        } else {
            copy_str(id.as_str())
        },
        None => copy_str(id.as_str()),
    };
    let ctag = match r.prop("getctag") {
        Some(s) => copy_str(s),
        None => String::new(),
    };
    Some(AddressBookInfo { id, href: dav, display_name, ctag })
}

/// The address books of a PROPFIND of the address-book home, in the order
/// the server listed them.
pub fn addressbooks_from(responses: &Vec<DavResponse>) -> (out: Vec<AddressBookInfo>)
    requires
        forall|i: int| 0 <= i < responses@.len() ==> (#[trigger] responses@[i]).wf(),
    ensures
        books_view(out@) == addressbooks_spec(responses@),
{
    let mut out: Vec<AddressBookInfo> = Vec::new();
    let mut i: usize = 0;
    proof {
        assert(responses@.take(0) =~= Seq::<DavResponse>::empty());
    }
    while i < responses.len()
        invariant
            0 <= i <= responses@.len(),
            forall|k: int| 0 <= k < responses@.len() ==> (#[trigger] responses@[k]).wf(),
            books_view(out@) == addressbooks_spec(responses@.take(i as int)),
        decreases responses@.len() - i,
    {
        proof {
            assert(responses@.take(i + 1).drop_last() =~= responses@.take(i as int));
        }
        let ghost before = out@;
        match addressbook_of(&responses[i]) {
            Some(c) => {
                out.push(c);
                proof {
                    assert(books_view(out@) =~= books_view(before).push(out@.last()@));
                }
            },
            None => {},
        }
        i = i + 1;
    }
    proof {
        assert(responses@.take(responses@.len() as int) =~= responses@);
    }
    out
}

// ---------------------------------------------------------------------------
// Contacts of an addressbook-query answer
// ---------------------------------------------------------------------------

/// What one addressbook-query response carries for reading: its address
/// data, its DAV path and its ETag (empty when absent).
pub open spec fn contact_source(r: DavResponse) -> Option<(Seq<char>, Seq<char>, Seq<char>)> {
    match prop_of(r, "address-data"@) {
        None => None,
        Some(data) => match href_to_dav_path_spec(r.href@) {
            None => None,
            Some(p) => Some((data, p, or_default(prop_of(r, "getetag"@)))),
        },
    }
}

/// The contact read from `data` (the first VCARD), if it holds one.
pub open spec fn contact_in(src: (Seq<char>, Seq<char>, Seq<char>), ab: Seq<char>) -> Option<ContactV> {
    match first_child(parse_spec(src.0), kw("VCARD"), 0) {
        Some(i) => Some(contact_of(parse_spec(src.0)[i], ab, src.1, src.2)),
        None => None,
    }
}

/// The contacts of the answer for address book `ab`, in order.
pub open spec fn contacts_spec(rs: Seq<DavResponse>, ab: Seq<char>) -> Seq<ContactV>
    decreases rs.len(),
{
    if rs.len() == 0 {
        Seq::empty()
    } else {
        let prev = contacts_spec(rs.drop_last(), ab);
        match contact_source(rs.last()) {
            Some(src) => match contact_in(src, ab) {
                Some(c) => prev.push(c),
                None => prev,
            },
            None => prev,
        }
    }
}

pub open spec fn contacts_view(v: Seq<Contact>) -> Seq<ContactV> {
    Seq::new(v.len(), |i: int| v[i]@)
}

/// The display contacts of an addressbook-query answer for address book
/// `addressbook_id`: one per response whose address data holds a VCARD, in
/// the order of the answer.
pub fn contacts_from(responses: &Vec<DavResponse>, addressbook_id: &str) -> (out: Vec<Contact>)
    requires
        forall|i: int| 0 <= i < responses@.len() ==> (#[trigger] responses@[i]).wf(),
    ensures
        contacts_view(out@) == contacts_spec(responses@, addressbook_id@),
{
    let mut out: Vec<Contact> = Vec::new();
    let mut i: usize = 0;
    proof {
        assert(responses@.take(0) =~= Seq::<DavResponse>::empty());
    }
    while i < responses.len()
        invariant
            0 <= i <= responses@.len(),
            forall|k: int| 0 <= k < responses@.len() ==> (#[trigger] responses@[k]).wf(),
            contacts_view(out@) == contacts_spec(responses@.take(i as int), addressbook_id@),
        decreases responses@.len() - i,
    {
        proof {
            assert(responses@.take(i + 1).drop_last() =~= responses@.take(i as int));
        }
        let r = &responses[i];
        let ghost before = out@;
        match r.prop("address-data") {
            Some(data) => match href_to_dav_path(r.href.as_str()) {
                Some(p) => {
                    let etag = match r.prop("getetag") {
                        Some(t) => copy_str(t),
                        None => String::new(),
                    };
                    proof {
                        assert(contact_source(responses@[i as int]) == Some((data@, p@, etag@)));
                    }
                    match parse_contact(data, addressbook_id, p.as_str(), etag.as_str()) {
                        Some(c) => {
                            out.push(c);
                            proof {
                                assert(contacts_view(out@) =~= contacts_view(before).push(out@.last()@));
                            }
                        },
                        None => {},
                    }
                },
                None => {},
            },
            None => {},
        }
        i = i + 1;
    }
    proof {
        assert(responses@.take(responses@.len() as int) =~= responses@);
    }
    out
}

// ---------------------------------------------------------------------------
// Cache decisions of a refresh
// ---------------------------------------------------------------------------

/// Index of the first address book at or after `from` whose id is `id`.
pub open spec fn first_with_id(bs: Seq<AddressBookInfoV>, id: Seq<char>, from: int) -> Option<int>
    decreases bs.len() - from,
{
    if from < 0 || from >= bs.len() {
        None
    } else if bs[from].id == id {
        Some(from)
    } else {
        first_with_id(bs, id, from + 1)
    }
}

/// The previous listing had the same, non-empty CTag for `ab` (the first
/// entry with its id counts).
pub open spec fn ctag_unchanged(previous: Seq<AddressBookInfoV>, ab: AddressBookInfoV) -> bool {
    match first_with_id(previous, ab.id, 0) {
        Some(k) => previous[k].ctag.len() > 0 && previous[k].ctag == ab.ctag,
        None => false,
    }
}

/// Whether a refresh must fetch the contacts of `ab` again: unless its CTag
/// is unchanged since `previous` and its contacts are cached.
pub fn needs_fetch(previous: &Vec<AddressBookInfo>, ab: &AddressBookInfo, has_cache: bool) -> (b: bool)
    ensures
        b == !(ctag_unchanged(books_view(previous@), ab@) && has_cache),
{
    let ghost pv = books_view(previous@);
    let mut i: usize = 0;
    while i < previous.len()
        invariant
            0 <= i <= previous@.len(),
            pv == books_view(previous@),
            first_with_id(pv, ab@.id, 0) == first_with_id(pv, ab@.id, i as int),
        decreases previous@.len() - i,
    {
        if str_eq(previous[i].id.as_str(), ab.id.as_str()) {
            let p = &previous[i];
            let unchanged = p.ctag.as_str().unicode_len() > 0 && str_eq(p.ctag.as_str(), ab.ctag.as_str());
            return !(unchanged && has_cache);
        }
        i = i + 1;
    }
    true
}

/// The ids of the address books to show, in listing order: all of them, or
/// those whose id is among `ids`.
pub open spec fn wanted_spec(bs: Seq<AddressBookInfoV>, ids: Option<Seq<Seq<char>>>) -> Seq<Seq<char>>
    decreases bs.len(),
{
    if bs.len() == 0 {
        Seq::empty()
    } else {
        let prev = wanted_spec(bs.drop_last(), ids);
        let keep = match ids {
            Some(s) => s.contains(bs.last().id),
            None => true,
        };
        if keep {
            prev.push(bs.last().id)
        } else {
            prev
        }
    }
}

/// The ids of the address books whose cached contacts are shown.
pub fn wanted_addressbooks(books: &Vec<AddressBookInfo>, ids: &Option<Vec<String>>) -> (out: Vec<String>)
    ensures
        strings_view(out@) == wanted_spec(
            books_view(books@),
            match ids {
                Some(v) => Some(strings_view(v@)),
                None => None,
            },
        ),
{
    let ghost wanted_ids = match ids {
        Some(v) => Some(strings_view(v@)),
        None => None,
    };
    let mut out: Vec<String> = Vec::new();
    let mut i: usize = 0;
    proof {
        assert(books_view(books@).take(0) =~= Seq::<AddressBookInfoV>::empty());
    }
    while i < books.len()
        invariant
            0 <= i <= books@.len(),
            wanted_ids == match ids {
                Some(v) => Some(strings_view(v@)),
                None => None,
            },
            strings_view(out@) == wanted_spec(books_view(books@).take(i as int), wanted_ids),
        decreases books@.len() - i,
    {
        proof {
            assert(books_view(books@).take(i + 1).drop_last() =~= books_view(books@).take(i as int));
        }
        let b = &books[i];
        let keep = match ids {
            Some(v) => contains_str(v, b.id.as_str()),
            None => true,
        };
        if keep {
            let ghost before = out@;
            out.push(copy_str(b.id.as_str()));
            proof {
                assert(strings_view(out@) =~= strings_view(before).push(b.id@));
            }
        }
        i = i + 1;
    }
    proof {
        assert(books_view(books@).take(books@.len() as int) =~= books_view(books@));
    }
    out
}

/// `contacts` without the entries at `href`.
pub open spec fn without_contact(cs: Seq<ContactV>, href: Seq<char>) -> Seq<ContactV>
    decreases cs.len(),
{
    if cs.len() == 0 {
        Seq::empty()
    } else {
        let prev = without_contact(cs.drop_last(), href);
        if cs.last().href == href {
            prev
        } else {
            prev.push(cs.last())
        }
    }
}

/// An address book's cached contacts after one of them was saved (`Some`)
/// or deleted (`None`): every entry at `href` is dropped, and the saved one
/// is appended.
pub fn upsert_contact(contacts: &mut Vec<Contact>, href: &str, value: Option<Contact>)
    ensures
        contacts_view(final(contacts)@) == match value {
            Some(v) => without_contact(contacts_view(old(contacts)@), href@).push(v@),
            None => without_contact(contacts_view(old(contacts)@), href@),
        },
{
    let ghost orig = contacts_view(old(contacts)@);
    let mut i: usize = 0;
    let ghost mut j: int = 0;
    proof {
        assert(orig.take(0) =~= Seq::<ContactV>::empty());
        assert(contacts_view(contacts@).take(0) =~= Seq::<ContactV>::empty());
        assert(contacts_view(contacts@).skip(0) =~= orig.skip(0));
    }
    while i < contacts.len()
        invariant
            0 <= i <= contacts@.len(),
            0 <= j <= orig.len(),
            contacts@.len() - i == orig.len() - j,
            contacts_view(contacts@).take(i as int) == without_contact(orig.take(j), href@),
            contacts_view(contacts@).skip(i as int) == orig.skip(j),
        decreases contacts@.len() - i,
    {
        let ghost before = contacts_view(contacts@);
        proof {
            assert(orig.take(j + 1).drop_last() =~= orig.take(j));
            assert(before.skip(i as int)[0] == orig.skip(j)[0]);
            assert(orig[j] == before[i as int]);
        }
        if str_eq(contacts[i].href.as_str(), href) {
            contacts.remove(i);
            proof {
                let after = contacts_view(contacts@);
                assert(after.take(i as int) =~= before.take(i as int));
                let rest = after.skip(i as int);
                assert forall|k: int| 0 <= k < rest.len() implies #[trigger] rest[k] == orig.skip(j + 1)[k] by {
                    assert(before.skip(i as int)[k + 1] == orig.skip(j)[k + 1]);
                }
                assert(after.skip(i as int) =~= orig.skip(j + 1));
                j = j + 1;
            }
        } else {
            proof {
                let after = contacts_view(contacts@);
                assert(after.take(i + 1) =~= before.take(i as int).push(orig[j]));
                let rest = after.skip(i + 1);
                assert forall|k: int| 0 <= k < rest.len() implies #[trigger] rest[k] == orig.skip(j + 1)[k] by {
                    assert(before.skip(i as int)[k + 1] == orig.skip(j)[k + 1]);
                }
                assert(after.skip(i + 1) =~= orig.skip(j + 1));
                j = j + 1;
            }
            i = i + 1;
        }
    }
    proof {
        assert(contacts_view(contacts@).take(i as int) =~= contacts_view(contacts@));
        assert(orig.take(j) =~= orig);
    }
    match value {
        Some(v) => {
            let ghost before = contacts_view(contacts@);
            contacts.push(v);
            proof {
                assert(contacts_view(contacts@) =~= before.push(contacts@.last()@));
            }
        },
        None => {},
    }
}

/// What the editor sends to save a contact.
pub struct SaveContactArgs {
    pub addressbook_id: String,
    /// Present when editing an existing contact; absent to create a new one.
    pub href: Option<String>,
    pub etag: Option<String>,
    pub contact: ContactInput,
}

impl SaveContactArgs {
    /// Whether the save edits the stored object in place (both its href and
    /// its ETag are known) rather than creating a new one.
    pub fn edits_existing(&self) -> (b: bool)
        ensures
            b == (self.href is Some && self.etag is Some),
    {
        self.href.is_some() && self.etag.is_some()
    }
}

} // verus!
