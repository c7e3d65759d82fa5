//! The events of an XML text, as the `xml` crate's event reader gives them,
//! the start tags among them, and the lookup of an attribute by name.

use crate::text::same_text;
use std::io::Cursor;
use vstd::prelude::*;
use xml::reader::{EventReader, XmlEvent};

verus! {

/// A start tag: its local name and its attributes (local name, value) in
/// the order written.
pub struct XmlStart {
    pub name: String,
    pub attributes: Vec<(String, String)>,
}

/// The attributes of a start tag as character sequences.
pub open spec fn attributes_view(attributes: Seq<(String, String)>) -> Seq<(Seq<char>, Seq<char>)> {
    attributes.map_values(|a: (String, String)| (a.0@, a.1@))
}

/// A start tag as character sequences.
pub open spec fn start_view(tag: XmlStart) -> (Seq<char>, Seq<(Seq<char>, Seq<char>)>) {
    (tag.name@, attributes_view(tag.attributes@))
}

/// A list of start tags as character sequences.
pub open spec fn starts_view(tags: Seq<XmlStart>) -> Seq<(Seq<char>, Seq<(Seq<char>, Seq<char>)>)> {
    tags.map_values(|t: XmlStart| start_view(t))
}

/// Events as character sequences: a start tag, or `None` for any other
/// event.
pub open spec fn events_view(events: Seq<Option<XmlStart>>) -> Seq<
    Option<(Seq<char>, Seq<(Seq<char>, Seq<char>)>)>,
> {
    events.map_values(
        |e: Option<XmlStart>|
            match e {
                Some(t) => Some(start_view(t)),
                None => None,
            },
    )
}

/// What the `xml` crate's `EventReader` reads from a text: its events up to
/// and including `EndDocument`, or up to the first error (a start tag as its
/// local name and attributes, any other event as `None`), and whether the
/// end was reached without an error.
pub uninterp spec fn xml_events(content: Seq<char>) -> (
    Seq<Option<(Seq<char>, Seq<(Seq<char>, Seq<char>)>)>>,
    bool,
);

/// Runs `xml::reader::EventReader` (default configuration) over the text
/// and gives each event, up to `EndDocument` or the first `Err`: a
/// `StartElement` as its local name and attributes (local name, value),
/// any other event as `None`. The contract only names the result
/// (`xml_events`): it depends on the text alone.
#[verifier::external_body]
fn read_events(content: &str) -> (r: (Vec<Option<XmlStart>>, bool))
    ensures
        (events_view(r.0@), r.1) == xml_events(content@),
{
    let mut events = Vec::new();
    for event in EventReader::new(Cursor::new(content)) {
        match event {
            Ok(XmlEvent::StartElement { name, attributes, .. }) => events.push(Some(XmlStart {
                name: name.local_name,
                attributes: attributes.into_iter().map(|a| (a.name.local_name, a.value)).collect(),
            })),
            Ok(_) => events.push(None),
            Err(_) => return (events, false),
        }
    }
    (events, true)
}

/// The start tags among some events, in order.
pub open spec fn only_starts(events: Seq<Option<(Seq<char>, Seq<(Seq<char>, Seq<char>)>)>>) -> Seq<
    (Seq<char>, Seq<(Seq<char>, Seq<char>)>),
>
    decreases events.len(),
{
    if events.len() == 0 {
        Seq::empty()
    } else {
        let rest = only_starts(events.drop_last());
        match events.last() {
            Some(t) => rest.push(t),
            None => rest,
        }
    }
}

/// The start tags of a text, and whether the XML reader reached its end
/// without an error.
pub open spec fn xml_start_tags(content: Seq<char>) -> (
    Seq<(Seq<char>, Seq<(Seq<char>, Seq<char>)>)>,
    bool,
) {
    (only_starts(xml_events(content).0), xml_events(content).1)
}

/// A copy of a start tag.
fn copy_start(t: &XmlStart) -> (r: XmlStart)
    ensures
        start_view(r) == start_view(*t),
{
    let mut attributes: Vec<(String, String)> = Vec::new();
    let mut i: usize = 0;
    while i < t.attributes.len()
        invariant
            i <= t.attributes.len(),
            attributes_view(attributes@) == attributes_view(t.attributes@).take(i as int),
        decreases t.attributes.len() - i,
    {
        let ghost before = attributes@;
        attributes.push((t.attributes[i].0.clone(), t.attributes[i].1.clone()));
        assert(attributes_view(attributes@) =~= attributes_view(before).push(
            attributes_view(t.attributes@)[i as int],
        ));
        assert(attributes_view(t.attributes@).take(i + 1) =~= attributes_view(t.attributes@).take(
            i as int,
        ).push(attributes_view(t.attributes@)[i as int]));
        i += 1;
    }
    assert(attributes_view(t.attributes@).take(t.attributes.len() as int) =~= attributes_view(
        t.attributes@,
    ));
    XmlStart { name: t.name.clone(), attributes }
}

/// The start tags of an XML text, in order, and whether the reader reached
/// the end without an error.
pub fn read_start_tags(content: &str) -> (r: (Vec<XmlStart>, bool))
    ensures
        (starts_view(r.0@), r.1) == xml_start_tags(content@),
{
    let (events, complete) = read_events(content);
    let ghost ev = events_view(events@);
    let mut tags: Vec<XmlStart> = Vec::new();
    let mut i: usize = 0;
    assert(ev.take(0) =~= Seq::<Option<(Seq<char>, Seq<(Seq<char>, Seq<char>)>)>>::empty());
    assert(starts_view(tags@) =~= Seq::<(Seq<char>, Seq<(Seq<char>, Seq<char>)>)>::empty());
    while i < events.len()
        invariant
            i <= events.len(),
            ev == events_view(events@),
            starts_view(tags@) == only_starts(ev.take(i as int)),
        decreases events.len() - i,
    {
        assert(ev.take(i + 1).drop_last() =~= ev.take(i as int));
        match &events[i] {
            Some(t) => {
                let ghost before = tags@;
                let c = copy_start(t);
                tags.push(c);
                assert(starts_view(tags@) =~= starts_view(before).push(start_view(c)));
            },
            None => {},
        }
        i += 1;
    }
    assert(ev.take(events.len() as int) =~= ev);
    (tags, complete)
}

/// The value of the first attribute named `key`.
pub open spec fn attr_value(attributes: Seq<(Seq<char>, Seq<char>)>, key: Seq<char>) -> Option<
    Seq<char>,
>
    decreases attributes.len(),
{
    if attributes.len() == 0 {
        None
    } else if attributes[0].0 == key {
        Some(attributes[0].1)
    } else {
        attr_value(attributes.drop_first(), key)
    }
}

/// The value of the first attribute of `tag` named `key`.
pub fn find_attribute<'a>(tag: &'a XmlStart, key: &str) -> (r: Option<&'a String>)
    ensures
        match r {
            Some(v) => attr_value(attributes_view(tag.attributes@), key@) == Some(v@),
            None => attr_value(attributes_view(tag.attributes@), key@) is None,
        },
{
    let ghost a = attributes_view(tag.attributes@);
    let mut i: usize = 0;
    assert(a.skip(0) =~= a);
    while i < tag.attributes.len()
        invariant
            i <= tag.attributes.len(),
            a == attributes_view(tag.attributes@),
            attr_value(a, key@) == attr_value(a.skip(i as int), key@),
        decreases tag.attributes.len() - i,
    {
        let pair = &tag.attributes[i];
        assert(a.skip(i as int)[0] == a[i as int]);
        if same_text(pair.0.as_str(), key) {
            return Some(&pair.1);
        }
        assert(a.skip(i as int).drop_first() =~= a.skip(i + 1));
        i += 1;
    }
    assert(a.skip(i as int).len() == 0);
    None
}

} // verus!
