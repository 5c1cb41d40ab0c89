//! The bundle entity: importing it from text, linking it to a remote
//! collection, and exporting it back to text.
use vstd::prelude::*;
use std::collections::HashMap;
use crate::diff::{diff, diff_spec};
use crate::format::{
    CharClass, ScanState, directive_line, in_class, initial_scan, lemma_plain_line,
    lemma_quoted_line, lemma_scan_empty_line, lemma_scan_last_line, lemma_scan_line_then, lemma_scan_split,
    bundle_marker_line, is_marker_line, lemma_collection_line, lemma_second_marker_ends_scan, lemma_marker_line, lemma_name_line, lemma_updated_line, one_line, quoted_line, scan, scan_from, scan_line, scan_text, word_bundle, word_collection, word_name,
    word_updated,
};
use crate::text::{decimal_of, is_digit, lemma_decimal_digits, lemma_decimal_round_trip, push_decimal, push_str};
use crate::timestamp::{Timestamp, rfc2822_text, rfc2822_text_of};

verus! {

broadcast use vstd::std_specs::hash::group_hash_axioms;

/// The ways an operation on bundles fails.
#[derive(Clone, Copy, Debug, PartialEq, Eq, Structural)]
pub enum BundleError {
    /// Storage could not be read or written.
    IoError,
    /// The text is malformed in its structure.
    ParseError,
    /// The text holds no item id.
    NoItemsFound,
    /// A stored bundle could not be encoded or decoded.
    Serialization,
    /// The remote service failed, with its error code.
    SteamError(u32),
    /// The remote item is not a collection, or has no children.
    InvalidCollection,
}

/// A bundle's link to a remote collection.
#[derive(Clone, Debug)]
pub struct CollectionLink {
    /// The remote collection's id.
    pub id: u64,
    /// Members of the remote collection that the bundle tracks.
    pub included: Vec<u64>,
    /// Members of the remote collection that the bundle does not track.
    pub excluded: Vec<u64>,
}

/// A named set of workshop items, optionally linked to a remote collection.
#[derive(Clone, Debug)]
pub struct Bundle {
    pub id: u32,
    pub name: String,
    pub updated: Timestamp,
    pub collection: Option<CollectionLink>,
    pub items: Vec<u64>,
}

impl PartialEq for Bundle {
    fn eq(&self, other: &Bundle) -> (r: bool) {
        self.id == other.id
    }
}

impl vstd::std_specs::cmp::PartialEqSpecImpl for Bundle {
    open spec fn obeys_eq_spec() -> bool {
        true
    }

    open spec fn eq_spec(&self, other: &Bundle) -> bool {
        self.id == other.id
    }
}

/// The id of the collection a bundle is linked to, if any.
pub open spec fn link_id(c: Option<CollectionLink>) -> Option<u64> {
    match c {
        Some(l) => Some(l.id),
        None => None,
    }
}

/// Whether `b` is what importing `text` gives, whatever the instant used where
/// the text names none: not yet stored (id 0), with the last name and
/// collection of the bundle block, and the items in text order.
pub open spec fn imported_from(b: Bundle, text: Seq<char>) -> bool {
    let st = scan_text(text);
    &&& b.id == 0
    &&& b.name@ == st.name
    &&& b.items@ == st.items
    &&& link_id(b.collection) == st.collection
    &&& (b.collection matches Some(l) ==> l.included@.len() == 0 && l.excluded@.len() == 0)
    &&& (st.updated matches Some(t) ==> b.updated == t)
}

/// Whether importing `text` fails: it holds no item.
pub open spec fn import_fails(text: Seq<char>) -> bool {
    scan_text(text).items.len() == 0
}

pub open spec fn opt_str_view(o: Option<&str>) -> Option<Seq<char>> {
    match o {
        Some(s) => Some(s@),
        None => None,
    }
}

/// One exported item: its id as a quoted literal, then its name, if known.
pub open spec fn item_line(x: u64, names: Map<u64, String>) -> Seq<char> {
    "\""@ + decimal_of(x as nat) + "\""@ + (if names.contains_key(x) {
        " -- "@ + names[x]@
    } else {
        Seq::empty()
    }) + "\n"@
}

pub open spec fn item_lines(xs: Seq<u64>, names: Map<u64, String>) -> Seq<char>
    decreases xs.len(),
{
    if xs.len() == 0 {
        Seq::empty()
    } else {
        item_lines(xs.drop_last(), names) + item_line(xs.last(), names)
    }
}

/// The part of the export that names the collection and lists its tracked members.
pub open spec fn collection_block(l: CollectionLink, names: Map<u64, String>, cname: Option<Seq<char>>) -> Seq<char> {
    "\n-- Collection\n"@ + (match cname {
        Some(n) => "-- "@ + n + "\n"@,
        None => Seq::empty(),
    }) + "-- https://steamcommunity.com/sharedfiles/filedetails/?id="@ + decimal_of(l.id as nat)
        + "\n"@ + item_lines(l.included@, names)
}

/// The text export of `b`, with `stamp` as the rendering of `b.updated`.
pub open spec fn export_text(
    b: Bundle,
    names: Map<u64, String>,
    cname: Option<Seq<char>>,
    stamp: Seq<char>,
) -> Seq<char> {
    "-- generated by gmpublisher\n-- https://gmpublisher.download\n--# bundle\n"@ + "--# name "@
        + b.name@ + "\n"@ + (match b.collection {
        Some(l) => "--# collection "@ + decimal_of(l.id as nat) + "\n"@,
        None => Seq::empty(),
    }) + "--# updated "@ + stamp + "\n"@ + "for _,w in ipairs({\n\n"@ + item_lines(b.items@, names)
        + (match b.collection {
        Some(l) => collection_block(l, names, cname),
        None => Seq::empty(),
    }) + "\n}) do resource.AddWorkshop(w) end"@
}

fn push_item_lines(out: &mut String, xs: &Vec<u64>, names: &HashMap<u64, String>)
    ensures
        final(out)@ == old(out)@ + item_lines(xs@, names@),
{
    let mut i: usize = 0;
    while i < xs.len()
        invariant
            i <= xs@.len(),
            out@ == old(out)@ + item_lines(xs@.subrange(0, i as int), names@),
        decreases xs@.len() - i,
    {
        let x = xs[i];
        let ghost before = out@;
        push_str(out, "\"");
        push_decimal(out, x);
        push_str(out, "\"");
        let ghost mid = out@;
        match names.get(&x) {
            Some(n) => {
                push_str(out, " -- ");
                push_str(out, n.as_str());
            },
            None => {},
        }
        push_str(out, "\n");
        assert(xs@.subrange(0, i + 1).drop_last() =~= xs@.subrange(0, i as int));
        assert(out@ =~= before + item_line(x, names@));
        i = i + 1;
    }
    assert(xs@.subrange(0, xs@.len() as int) =~= xs@);
}

impl Bundle {
    /// Reads a bundle from its text form, with `now` as its time where the
    /// text names none. The result is not yet stored: its id is 0, and its
    /// collection link, if any, is not yet resolved.
    pub fn import_at(src: &str, now: Timestamp) -> (r: Result<Bundle, BundleError>)
        ensures
            import_fails(src@) <==> r == Err::<Bundle, BundleError>(BundleError::NoItemsFound),
            r is Ok ==> imported_from(r->Ok_0, src@),
            !import_fails(src@) ==> r is Ok && r->Ok_0.items@.len() > 0,
            r is Ok && scan_text(src@).updated is None ==> r->Ok_0.updated == now,
            r is Ok || r == Err::<Bundle, BundleError>(BundleError::NoItemsFound),
    {
        let sc = scan(src);
        if sc.items.len() == 0 {
            return Err(BundleError::NoItemsFound);
        }
        let collection = match sc.collection {
            Some(id) => Some(CollectionLink { id, included: Vec::new(), excluded: Vec::new() }),
            None => None,
        };
        let updated = match sc.updated {
            Some(t) => t,
            None => now,
        };
        Ok(Bundle { id: 0, name: sc.name, updated, collection, items: sc.items })
    }

    /// Reads a bundle from its text form, with `now` as its time where the
    /// text names none, as `import_at` does.
    pub fn import(src: String, now: Timestamp) -> (r: Result<Bundle, BundleError>)
        ensures
            import_fails(src@) <==> r == Err::<Bundle, BundleError>(BundleError::NoItemsFound),
            r is Ok ==> imported_from(r->Ok_0, src@),
            !import_fails(src@) ==> r is Ok && r->Ok_0.items@.len() > 0,
            r is Ok && scan_text(src@).updated is None ==> r->Ok_0.updated == now,
            r is Ok || r == Err::<Bundle, BundleError>(BundleError::NoItemsFound),
    {
        Bundle::import_at(src.as_str(), now)
    }

    /// Resolves the collection link against the remote collection's members,
    /// where both are there: members found among the items move from the items
    /// to `included`; the others go to `excluded`. Without a link or without
    /// members, nothing changes.
    pub fn resolve_collection(&mut self, children: Option<Vec<u64>>)
        ensures
            final(self).id == old(self).id,
            final(self).name == old(self).name,
            final(self).updated == old(self).updated,
            link_id(final(self).collection) == link_id(old(self).collection),
            match (old(self).collection, children) {
                (Some(l), Some(ch)) => {
                    let d = diff_spec(old(self).items@, ch@);
                    &&& final(self).items@ == d.0
                    &&& final(self).collection->0.included@ == l.included@ + d.1
                    &&& final(self).collection->0.excluded@ == l.excluded@ + d.2
                },
                _ => {
                    &&& final(self).items@ == old(self).items@
                    &&& final(self).collection == old(self).collection
                },
            },
    {
        if let Some(ch) = children {
            if let Some(l) = &mut self.collection {
                diff(&mut self.items, &ch, &mut l.included, &mut l.excluded);
            }
        }
    }

    /// Renders the bundle in its text form. `item_names` gives a comment for
    /// items whose name is known; `collection_name` titles the collection block.
    pub fn export(&self, item_names: HashMap<u64, String>, collection_name: Option<&str>) -> (r: String)
        requires
            self.updated.representable(),
        ensures
            r@ == export_text(
                *self,
                item_names@,
                opt_str_view(collection_name),
                rfc2822_text_of(self.updated.secs, self.updated.nanos),
            ),
            forall|i: int|
                0 <= i < rfc2822_text_of(self.updated.secs, self.updated.nanos).len()
                    ==> rfc2822_text_of(self.updated.secs, self.updated.nanos)[i] != '\n',
    {
        let mut out = String::new();
        push_str(&mut out, "-- generated by gmpublisher\n-- https://gmpublisher.download\n--# bundle\n");
        push_str(&mut out, "--# name ");
        push_str(&mut out, self.name.as_str());
        push_str(&mut out, "\n");
        match &self.collection {
            Some(l) => {
                push_str(&mut out, "--# collection ");
                push_decimal(&mut out, l.id);
                push_str(&mut out, "\n");
            },
            None => {},
        }
        let stamp = rfc2822_text(self.updated);
        push_str(&mut out, "--# updated ");
        push_str(&mut out, stamp.as_str());
        push_str(&mut out, "\n");
        push_str(&mut out, "for _,w in ipairs({\n\n");
        push_item_lines(&mut out, &self.items, &item_names);
        match &self.collection {
            Some(l) => {
                push_str(&mut out, "\n-- Collection\n");
                match collection_name {
                    Some(n) => {
                        push_str(&mut out, "-- ");
                        push_str(&mut out, n);
                        push_str(&mut out, "\n");
                    },
                    None => {},
                }
                push_str(&mut out, "-- https://steamcommunity.com/sharedfiles/filedetails/?id=");
                push_decimal(&mut out, l.id);
                push_str(&mut out, "\n");
                push_item_lines(&mut out, &l.included, &item_names);
            },
            None => {},
        }
        push_str(&mut out, "\n}) do resource.AddWorkshop(w) end");
        out
    }
}

/// Whether every name in the map fits on one line.
pub open spec fn names_one_line(names: Map<u64, String>) -> bool {
    forall|x: u64| names.contains_key(x) ==> one_line(#[trigger] names[x]@)
}

proof fn lemma_decimal_one_line(x: u64)
    ensures
        one_line(decimal_of(x as nat)),
        decimal_of(x as nat).len() > 0,
{
    lemma_decimal_digits(x as nat);
    let d = decimal_of(x as nat);
    assert forall|j: int| 0 <= j < d.len() implies d[j] != '\n' by {
        assert(is_digit(d[j]));
    }
}

#[verifier::rlimit(40)]
proof fn lemma_scan_item_lines(xs: Seq<u64>, names: Map<u64, String>, tail: Seq<char>, st: ScanState)
    requires
        !st.stopped,
        names_one_line(names),
    ensures
        scan_from(item_lines(xs, names) + tail, 0, st) == scan_from(
            tail,
            0,
            ScanState { items: st.items + xs, ..st },
        ),
    decreases xs.len(),
{
    if xs.len() == 0 {
        assert(item_lines(xs, names) + tail =~= tail);
        assert(st.items + xs =~= st.items);
    } else {
        let x = xs.last();
        let pre = xs.drop_last();
        let rest = if names.contains_key(x) {
            " -- "@ + names[x]@
        } else {
            Seq::empty()
        };
        let l = quoted_line(x, rest);
        reveal_strlit("\"");
        reveal_strlit(" -- ");
        reveal_strlit("\n");
        assert(item_line(x, names) =~= l + seq!['\n']);
        assert(item_lines(xs, names) + tail =~= item_lines(pre, names) + (l + seq!['\n'] + tail));
        lemma_scan_item_lines(pre, names, l + seq!['\n'] + tail, st);
        let st1 = ScanState { items: st.items + pre, ..st };
        lemma_decimal_one_line(x);
        assert(one_line(l)) by {
            let d = decimal_of(x as nat);
            assert forall|j: int| 0 <= j < l.len() implies l[j] != '\n' by {
                if j == 0 {
                } else if j <= d.len() {
                    assert(l[j] == d[j - 1]);
                } else if j == d.len() + 1 {
                } else {
                    assert(l[j] == rest[j - d.len() - 2]);
                    if names.contains_key(x) {
                        if j - d.len() - 2 >= 4 {
                            assert(rest[j - d.len() - 2] == names[x]@[j - d.len() - 6]);
                        }
                    }
                }
            }
        }
        lemma_scan_line_then(l, tail, st1);
        lemma_quoted_line(x, rest, st1);
        assert(st1.items.push(x) =~= st.items + xs);
    }
}


proof fn lemma_lit_newline()
    ensures
        "\n"@ == seq!['\n'],
{
    reveal_strlit("\n");
    assert("\n"@ =~= seq!['\n']);
}

proof fn lemma_lit_name(v: Seq<char>)
    ensures
        "--# name "@ + v == directive_line(word_name(), v),
{
    reveal_strlit("--# name ");
    assert("--# name "@ + v =~= directive_line(word_name(), v));
}

proof fn lemma_lit_collection(v: Seq<char>)
    ensures
        "--# collection "@ + v == directive_line(word_collection(), v),
{
    reveal_strlit("--# collection ");
    assert("--# collection "@ + v =~= directive_line(word_collection(), v));
}

proof fn lemma_lit_updated(v: Seq<char>)
    ensures
        "--# updated "@ + v == directive_line(word_updated(), v),
{
    reveal_strlit("--# updated ");
    assert("--# updated "@ + v =~= directive_line(word_updated(), v));
}

#[verifier::rlimit(40)]
proof fn lemma_scan_head(tail: Seq<char>)
    ensures
        scan_from(
            "-- generated by gmpublisher\n-- https://gmpublisher.download\n--# bundle\n"@ + tail,
            0,
            initial_scan(),
        ) == scan_from(tail, 0, ScanState { started: true, ..initial_scan() }),
{
    let lit_head = "-- generated by gmpublisher\n-- https://gmpublisher.download\n--# bundle\n"@;
    reveal_strlit("-- generated by gmpublisher\n-- https://gmpublisher.download\n--# bundle\n");
    let nl = seq!['\n'];
    let h1 = lit_head.subrange(0, 27);
    let h2 = lit_head.subrange(28, 59);
    let mk = lit_head.subrange(60, 70);
    assert(lit_head =~= h1 + nl + (h2 + nl + (mk + nl)));
    let s0 = initial_scan();
    let s1 = ScanState { started: true, ..s0 };
    lemma_scan_split(lit_head, tail, s0);
    lemma_scan_line_then(h1, h2 + nl + (mk + nl), s0);
    lemma_plain_line(h1, s0);
    lemma_scan_line_then(h2, mk + nl, s0);
    lemma_plain_line(h2, s0);
    assert(mk + nl =~= mk + nl + Seq::<char>::empty());
    lemma_scan_line_then(mk, Seq::<char>::empty(), s0);
    assert(mk =~= bundle_marker_line());
    lemma_marker_line(s0);
    assert(scan_from(Seq::<char>::empty(), 0, s1) == s1) by {
        assert(Seq::<char>::empty().subrange(0, 0) =~= Seq::<char>::empty());
        lemma_scan_empty_line(s1);
    }
}

proof fn lemma_scan_name(name: Seq<char>, tail: Seq<char>, st: ScanState)
    requires
        st.started,
        !st.stopped,
        one_line(name),
        name.len() == 0 || !in_class(name[0], CharClass::Blank),
        name.len() == 0 ==> st.name.len() == 0,
    ensures
        scan_from("--# name "@ + name + "\n"@ + tail, 0, st) == scan_from(tail, 0, ScanState { name, ..st }),
{
    lemma_lit_name(name);
    lemma_lit_newline();
    lemma_name_line(st, name);
    lemma_scan_line_then(directive_line(word_name(), name), tail, st);
    if name.len() == 0 {
        assert(name =~= st.name);
    }
}

proof fn lemma_scan_collection(id: u64, tail: Seq<char>, st: ScanState)
    requires
        st.started,
        !st.stopped,
    ensures
        scan_from("--# collection "@ + decimal_of(id as nat) + "\n"@ + tail, 0, st) == scan_from(
            tail,
            0,
            ScanState { collection: Some(id), ..st },
        ),
{
    lemma_lit_collection(decimal_of(id as nat));
    lemma_lit_newline();
    lemma_collection_line(st, id);
    lemma_scan_line_then(directive_line(word_collection(), decimal_of(id as nat)), tail, st);
}

proof fn lemma_scan_updated(stamp: Seq<char>, tail: Seq<char>, st: ScanState)
    requires
        st.started,
        !st.stopped,
        one_line(stamp),
    ensures
        ({
            let r = scan_line(st, directive_line(word_updated(), stamp));
            &&& scan_from("--# updated "@ + stamp + "\n"@ + tail, 0, st) == scan_from(tail, 0, r)
            &&& r.started && !r.stopped && r.name == st.name && r.collection == st.collection && r.items
                == st.items
        }),
{
    lemma_lit_updated(stamp);
    lemma_lit_newline();
    lemma_updated_line(st, stamp);
    lemma_scan_line_then(directive_line(word_updated(), stamp), tail, st);
}

proof fn lemma_scan_loop_head(tail: Seq<char>, st: ScanState)
    ensures
        scan_from("for _,w in ipairs({\n\n"@ + tail, 0, st) == scan_from(tail, 0, st),
{
    reveal_strlit("for _,w in ipairs({\n\n");
    let lit = "for _,w in ipairs({\n\n"@;
    let nl = seq!['\n'];
    let f = lit.subrange(0, 19);
    assert(lit + tail =~= f + nl + (Seq::<char>::empty() + nl + tail));
    lemma_scan_line_then(f, Seq::<char>::empty() + nl + tail, st);
    lemma_plain_line(f, st);
    lemma_scan_line_then(Seq::<char>::empty(), tail, st);
    lemma_scan_empty_line(st);
}

proof fn lemma_scan_end(st: ScanState)
    ensures
        scan_from("\n}) do resource.AddWorkshop(w) end"@, 0, st) == st,
{
    reveal_strlit("\n}) do resource.AddWorkshop(w) end");
    let lit = "\n}) do resource.AddWorkshop(w) end"@;
    let last = lit.subrange(1, 34);
    assert(lit =~= Seq::<char>::empty() + seq!['\n'] + last);
    lemma_scan_line_then(Seq::<char>::empty(), last, st);
    lemma_scan_empty_line(st);
    lemma_scan_last_line(last, st);
    lemma_plain_line(last, st);
}

proof fn lemma_scan_comment(c: Seq<char>, tail: Seq<char>, st: ScanState)
    requires
        one_line(c),
    ensures
        scan_from("-- "@ + c + "\n"@ + tail, 0, st) == scan_from(tail, 0, st),
{
    reveal_strlit("-- ");
    lemma_lit_newline();
    let l = "-- "@ + c;
    assert("-- "@ + c + "\n"@ + tail =~= l + seq!['\n'] + tail);
    assert(one_line(l)) by {
        assert forall|j: int| 0 <= j < l.len() implies l[j] != '\n' by {
            if j >= 3 {
                assert(l[j] == c[j - 3]);
            }
        }
    }
    lemma_scan_line_then(l, tail, st);
    lemma_plain_line(l, st);
}

#[verifier::rlimit(40)]
proof fn lemma_scan_block(l: CollectionLink, names: Map<u64, String>, cname: Option<Seq<char>>, tail: Seq<char>, st: ScanState)
    requires
        !st.stopped,
        names_one_line(names),
        cname matches Some(n) ==> one_line(n),
    ensures
        scan_from(collection_block(l, names, cname) + tail, 0, st) == scan_from(
            tail,
            0,
            ScanState { items: st.items + l.included@, ..st },
        ),
{
    reveal_strlit("\n-- Collection\n");
    reveal_strlit("-- https://steamcommunity.com/sharedfiles/filedetails/?id=");
    lemma_lit_newline();
    let nl = seq!['\n'];
    let lit = "\n-- Collection\n"@;
    let cl = lit.subrange(1, 14);
    let url = "-- https://steamcommunity.com/sharedfiles/filedetails/?id="@;
    let d = decimal_of(l.id as nat);
    let cpart = match cname {
        Some(n) => "-- "@ + n + "\n"@,
        None => Seq::empty(),
    };
    let items = item_lines(l.included@, names);
    let url_line = url + d;
    let after = items + tail;
    assert(collection_block(l, names, cname) + tail =~= Seq::<char>::empty() + nl + (cl + nl + (cpart + (
    url_line + nl + after))));
    lemma_scan_line_then(Seq::<char>::empty(), cl + nl + (cpart + (url_line + nl + after)), st);
    lemma_scan_empty_line(st);
    lemma_scan_line_then(cl, cpart + (url_line + nl + after), st);
    lemma_plain_line(cl, st);
    match cname {
        Some(n) => {
            assert(cpart + (url_line + nl + after) =~= "-- "@ + n + "\n"@ + (url_line + nl + after));
            lemma_scan_comment(n, url_line + nl + after, st);
        },
        None => {
            assert(cpart + (url_line + nl + after) =~= url_line + nl + after);
        },
    }
    lemma_decimal_one_line(l.id);
    assert(one_line(url_line)) by {
        assert forall|j: int| 0 <= j < url_line.len() implies url_line[j] != '\n' by {
            if j >= url.len() {
                assert(url_line[j] == d[j - url.len()]);
            }
        }
    }
    lemma_scan_line_then(url_line, after, st);
    lemma_plain_line(url_line, st);
    lemma_scan_item_lines(l.included@, names, tail, st);
}

/// Exporting a bundle and scanning the text gives back the bundle's name, its
/// collection's id, and its items followed by the collection's tracked
/// members, provided the name, the item names, the collection title and the
/// rendered time each fit on one line and the name starts with no blank.
#[verifier::rlimit(60)]
pub proof fn lemma_export_scan(b: Bundle, names: Map<u64, String>, cname: Option<Seq<char>>, stamp: Seq<char>)
    requires
        one_line(b.name@),
        b.name@.len() == 0 || !in_class(b.name@[0], CharClass::Blank),
        names_one_line(names),
        cname matches Some(n) ==> one_line(n),
        one_line(stamp),
    ensures
        scan_text(export_text(b, names, cname, stamp)).name == b.name@,
        scan_text(export_text(b, names, cname, stamp)).collection == link_id(b.collection),
        scan_text(export_text(b, names, cname, stamp)).items == b.items@ + match b.collection {
            Some(l) => l.included@,
            None => Seq::<u64>::empty(),
        },
{
    let head = "-- generated by gmpublisher\n-- https://gmpublisher.download\n--# bundle\n"@;
    let nl = "\n"@;
    let coll = match b.collection {
        Some(l) => "--# collection "@ + decimal_of(l.id as nat) + "\n"@,
        None => Seq::empty(),
    };
    let block = match b.collection {
        Some(l) => collection_block(l, names, cname),
        None => Seq::empty(),
    };
    let end = "\n}) do resource.AddWorkshop(w) end"@;
    let t5 = block + end;
    let t4 = item_lines(b.items@, names) + t5;
    let t3 = "for _,w in ipairs({\n\n"@ + t4;
    let t2 = "--# updated "@ + stamp + nl + t3;
    let t1 = coll + t2;
    let t0 = "--# name "@ + b.name@ + nl + t1;
    assert(export_text(b, names, cname, stamp) =~= head + t0);
    let s1 = ScanState { started: true, ..initial_scan() };
    lemma_scan_head(t0);
    lemma_scan_name(b.name@, t1, s1);
    let s2 = ScanState { name: b.name@, ..s1 };
    let s3 = match b.collection {
        Some(l) => ScanState { collection: Some(l.id), ..s2 },
        None => s2,
    };
    match b.collection {
        Some(l) => {
            assert(t1 =~= "--# collection "@ + decimal_of(l.id as nat) + "\n"@ + t2);
            lemma_scan_collection(l.id, t2, s2);
        },
        None => {
            assert(t1 =~= t2);
        },
    }
    lemma_scan_updated(stamp, t3, s3);
    let s4 = scan_line(s3, directive_line(word_updated(), stamp));
    lemma_scan_loop_head(t4, s4);
    lemma_scan_item_lines(b.items@, names, t5, s4);
    let s5 = ScanState { items: s4.items + b.items@, ..s4 };
    match b.collection {
        Some(l) => {
            lemma_scan_block(l, names, cname, end, s5);
            lemma_scan_end(ScanState { items: s5.items + l.included@, ..s5 });
            assert(s5.items + l.included@ =~= b.items@ + l.included@);
        },
        None => {
            assert(t5 =~= end);
            lemma_scan_end(s5);
            assert(s5.items =~= b.items@ + Seq::<u64>::empty());
        },
    }
}

/// Exporting a bundle and importing the text gives a bundle with the same
/// name, the same collection id, and the bundle's items followed by its
/// collection's tracked members; the import fails exactly when there are none.
/// `stamp` is the rendered time, which `export` shows to fit on one line.
pub proof fn lemma_export_import(
    b: Bundle,
    names: Map<u64, String>,
    cname: Option<Seq<char>>,
    stamp: Seq<char>,
    r: Bundle,
)
    requires
        one_line(b.name@),
        b.name@.len() == 0 || !in_class(b.name@[0], CharClass::Blank),
        names_one_line(names),
        cname matches Some(n) ==> one_line(n),
        one_line(stamp),
    ensures
        import_fails(export_text(b, names, cname, stamp)) <==> b.items@.len() + match b.collection {
            Some(l) => l.included@.len(),
            None => 0,
        } == 0,
        imported_from(r, export_text(b, names, cname, stamp)) ==> {
            &&& r.name@ == b.name@
            &&& link_id(r.collection) == link_id(b.collection)
            &&& r.items@ == b.items@ + match b.collection {
                Some(l) => l.included@,
                None => Seq::<u64>::empty(),
            }
        },
{
    lemma_export_scan(b, names, cname, stamp);
}

/// Importing a text with a second bundle marker line is importing the text
/// cut just before that line: both fail, or both give the same name,
/// collection and items (and the same time, where the text names one).
pub proof fn lemma_second_marker_import(pre: Seq<char>, marker: Seq<char>, rest: Seq<char>, r: Bundle)
    requires
        pre.len() > 0,
        pre.last() == '\n',
        scan_text(pre).started,
        !scan_text(pre).stopped,
        one_line(marker),
        is_marker_line(marker),
    ensures
        import_fails(pre + marker + seq!['\n'] + rest) == import_fails(pre),
        imported_from(r, pre + marker + seq!['\n'] + rest) == imported_from(r, pre),
        import_fails(pre + marker) == import_fails(pre),
        imported_from(r, pre + marker) == imported_from(r, pre),
{
    lemma_second_marker_ends_scan(pre, marker, rest);
}

} // verus!
