//! The variable-set and data-set XML documents (resources 7000 and 7001).
//!
//! Reading goes through `quick_xml`'s pull reader: its events are turned into
//! plain [`XmlItem`] values, and the rules that pick variables and data-set
//! cells out of them are verified functions of that item list.

use vstd::prelude::*;
use vstd::string::StringSliceAdditionalSpecFns;
use quick_xml::events::{BytesEnd, BytesRef, BytesStart, BytesText, Event};
use quick_xml::{Reader, Writer};
use quick_xml::XmlVersion;
use crate::psd::VariableSet;
use crate::strings::str_equal;

verus! {

#[verifier::external_type_specification]
#[verifier::external_body]
#[verifier::reject_recursive_types(R)]
pub struct ExXmlReader<R>(Reader<R>);

#[verifier::external_type_specification]
#[verifier::external_body]
pub struct ExBytesStart<'i>(BytesStart<'i>);

#[verifier::external_type_specification]
#[verifier::external_body]
pub struct ExBytesEnd<'i>(BytesEnd<'i>);

#[verifier::external_type_specification]
#[verifier::external_body]
pub struct ExBytesText<'i>(BytesText<'i>);

#[verifier::external_type_specification]
#[verifier::external_body]
pub struct ExBytesRef<'i>(BytesRef<'i>);

/// One event of the reader, by kind.
pub enum XmlEvent<'i> {
    Start(BytesStart<'i>),
    Empty(BytesStart<'i>),
    End(BytesEnd<'i>),
    Text(BytesText<'i>),
    GeneralRef(BytesRef<'i>),
    Eof,
    Failed,
    Other,
}

/// An attribute of a tag: its key and its normalized value (`None`
/// where the value could not be normalized).
#[derive(Debug, Clone, PartialEq)]
pub struct XmlAttribute {
    pub key: String,
    pub value: Option<String>,
}

/// A reader event as plain values.  `attributes` holds `None` for an
/// attribute that the reader found malformed.
#[derive(Debug, Clone, PartialEq)]
pub enum XmlItem {
    Start { name: String, attributes: Vec<Option<XmlAttribute>> },
    Empty { name: String, attributes: Vec<Option<XmlAttribute>> },
    End { name: String },
    Text { raw: String },
    GeneralRef { name: String },
    Failed,
    Other,
}

/// An attribute as views: its key and its normalized value.
pub type XmlAttributeView = Option<(Seq<char>, Option<Seq<char>>)>;

/// A reader event as views, with the end of the input as an event of its
/// own.
pub enum XmlItemView {
    Start { name: Seq<char>, attributes: Seq<XmlAttributeView> },
    Empty { name: Seq<char>, attributes: Seq<XmlAttributeView> },
    End { name: Seq<char> },
    Text { raw: Seq<char> },
    GeneralRef { name: Seq<char> },
    Failed,
    Other,
    Eof,
}

/// The events that `quick_xml`'s reader, trimming whitespace around text,
/// yields for `xml`, up to the first error or the end of the input, both
/// included.
pub uninterp spec fn xml_views(xml: Seq<char>) -> Seq<XmlItemView>;

/// The events that `reader` has still to yield, up to the first error or
/// the end of the input, both included.
pub uninterp spec fn reader_views(reader: Reader<&[u8]>) -> Seq<XmlItemView>;

/// The name of a start or empty tag, as `BytesStart::name` gives it.
pub uninterp spec fn tag_name_view(tag: BytesStart) -> Seq<char>;

/// The attributes of a start or empty tag, as `BytesStart::attributes`
/// with checks off and `Attribute::normalized_value` give them.
pub uninterp spec fn tag_attribute_views(tag: BytesStart) -> Seq<XmlAttributeView>;

/// The name of an end tag, as `BytesEnd::name` gives it.
pub uninterp spec fn end_name_view(tag: BytesEnd) -> Seq<char>;

/// The escaped content of a text event.
pub uninterp spec fn text_view(text: BytesText) -> Seq<char>;

/// The name of a general entity reference.
pub uninterp spec fn reference_view(reference: BytesRef) -> Seq<char>;

/// Whether a list of events ends at its first error or at the end of the
/// input, and only there.
pub open spec fn ends_once(s: Seq<XmlItemView>) -> bool {
    &&& s.len() > 0
    &&& (s.last() is Eof || s.last() is Failed)
    &&& forall|j: int| 0 <= j < s.len() - 1 ==> !(#[trigger] s[j] is Eof) && !(s[j] is Failed)
}

/// The events of a list that ends once, without the end of the input.
pub open spec fn before_end(s: Seq<XmlItemView>) -> Seq<XmlItemView> {
    if s.len() > 0 && s.last() is Eof {
        s.drop_last()
    } else {
        s
    }
}

/// An attribute as views.
pub open spec fn attribute_view(a: Option<XmlAttribute>) -> XmlAttributeView {
    match a {
        Some(x) => Some(
            (
                x.key@,
                match x.value {
                    Some(v) => Some(v@),
                    None => None,
                },
            ),
        ),
        None => None,
    }
}

/// Attributes as views.
pub open spec fn attributes_view(s: Seq<Option<XmlAttribute>>) -> Seq<XmlAttributeView> {
    s.map_values(|a: Option<XmlAttribute>| attribute_view(a))
}

/// An event as views.
pub open spec fn item_view(it: XmlItem) -> XmlItemView {
    match it {
        XmlItem::Start { name, attributes } => XmlItemView::Start {
            name: name@,
            attributes: attributes_view(attributes@),
        },
        XmlItem::Empty { name, attributes } => XmlItemView::Empty {
            name: name@,
            attributes: attributes_view(attributes@),
        },
        XmlItem::End { name } => XmlItemView::End { name: name@ },
        XmlItem::Text { raw } => XmlItemView::Text { raw: raw@ },
        XmlItem::GeneralRef { name } => XmlItemView::GeneralRef { name: name@ },
        XmlItem::Failed => XmlItemView::Failed,
        XmlItem::Other => XmlItemView::Other,
    }
}

/// Events as views.
pub open spec fn items_view(items: Seq<XmlItem>) -> Seq<XmlItemView> {
    items.map_values(|it: XmlItem| item_view(it))
}

/// A reader event as views.
pub open spec fn event_view(e: XmlEvent) -> XmlItemView {
    match e {
        XmlEvent::Start(tag) => XmlItemView::Start {
            name: tag_name_view(tag),
            attributes: tag_attribute_views(tag),
        },
        XmlEvent::Empty(tag) => XmlItemView::Empty {
            name: tag_name_view(tag),
            attributes: tag_attribute_views(tag),
        },
        XmlEvent::End(tag) => XmlItemView::End { name: end_name_view(tag) },
        XmlEvent::Text(text) => XmlItemView::Text { raw: text_view(text) },
        XmlEvent::GeneralRef(reference) => XmlItemView::GeneralRef { name: reference_view(reference) },
        XmlEvent::Eof => XmlItemView::Eof,
        XmlEvent::Failed => XmlItemView::Failed,
        XmlEvent::Other => XmlItemView::Other,
    }
}

/// A reader over `xml` that trims whitespace around text.
///
/// Calls `Reader::from_str` and sets the `trim_text` option.  The reader
/// has all the events of `xml` to yield; each event that is not the end
/// consumes input, so they end, at the first error or at the end.
#[verifier::external_body]
fn xml_reader<'a>(xml: &'a str) -> (r: Reader<&'a [u8]>)
    ensures
        reader_views(r) == xml_views(xml@),
        ends_once(reader_views(r)),
{
    let mut reader = Reader::from_str(xml);
    reader.config_mut().trim_text(true);
    reader
}

/// The next event of `reader`, told apart by kind.
///
/// Calls `Reader::read_event`; an error comes back as `Failed`, and
/// comments, declarations, processing instructions, CDATA and doctypes as
/// `Other`.  The event is the first that the reader had to yield, and the
/// reader keeps the rest.  Nothing is claimed of a read after the last.
#[verifier::external_body]
fn read_xml_event<'a>(reader: &mut Reader<&'a [u8]>) -> (r: XmlEvent<'a>)
    ensures
        reader_views(*old(reader)).len() > 0 ==> event_view(r) == reader_views(*old(reader))[0]
            && reader_views(*final(reader)) == reader_views(*old(reader)).drop_first(),
{
    match reader.read_event() {
        Ok(Event::Start(e)) => XmlEvent::Start(e),
        Ok(Event::Empty(e)) => XmlEvent::Empty(e),
        Ok(Event::End(e)) => XmlEvent::End(e),
        Ok(Event::Text(t)) => XmlEvent::Text(t),
        Ok(Event::GeneralRef(r)) => XmlEvent::GeneralRef(r),
        Ok(Event::Eof) => XmlEvent::Eof,
        Err(_) => XmlEvent::Failed,
        Ok(_) => XmlEvent::Other,
    }
}

/// The name of a start or empty tag.
///
/// Calls `BytesStart::name` and copies it.
#[verifier::external_body]
fn start_name(tag: &BytesStart) -> (r: String)
    ensures
        r@ == tag_name_view(*tag),
{
    tag.name().as_ref().to_string()
}

/// The attributes of a start or empty tag, in order, with duplicate keys
/// allowed; a malformed attribute comes back as `None`, a value that cannot
/// be normalized as `value: None`.
///
/// Calls `BytesStart::attributes` with checks off and
/// `Attribute::normalized_value` for XML 1.0 on each attribute.
#[verifier::external_body]
fn start_attributes(tag: &BytesStart) -> (r: Vec<Option<XmlAttribute>>)
    ensures
        attributes_view(r@) == tag_attribute_views(*tag),
{
    let mut attributes = tag.attributes();
    attributes.with_checks(false);
    attributes
        .map(|a| a.ok().map(|a| XmlAttribute {
            key: a.key.as_ref().to_string(),
            value: a.normalized_value(XmlVersion::Implicit1_0).ok().map(|v| v.into_owned()),
        }))
        .collect()
}

/// The name of an end tag.
///
/// Calls `BytesEnd::name` and copies it.
#[verifier::external_body]
fn end_name(tag: &BytesEnd) -> (r: String)
    ensures
        r@ == end_name_view(*tag),
{
    tag.name().as_ref().to_string()
}

/// The escaped content of a text event.
///
/// Calls `BytesText::into_inner`.
#[verifier::external_body]
fn text_content(text: BytesText) -> (r: String)
    ensures
        r@ == text_view(text),
{
    text.into_inner().into_owned()
}

/// The name of a general entity reference (`amp` for `&amp;`).
///
/// Copies the string that `BytesRef` dereferences to.
#[verifier::external_body]
fn reference_name(reference: &BytesRef) -> (r: String)
    ensures
        r@ == reference_view(*reference),
{
    reference.to_string()
}

/// What `quick_xml::escape::unescape` makes of `raw`: `None` where it
/// reports an error.
pub uninterp spec fn xml_unescaped(raw: Seq<char>) -> Option<Seq<char>>;

/// Replaces the entity and character references of `raw`.
///
/// Calls `quick_xml::escape::unescape`.  The contract names its result, and
/// states what its source shows: text without `&` comes back unchanged.
#[verifier::external_body]
fn xml_unescape(raw: &str) -> (r: Option<String>)
    ensures
        r is Some <==> xml_unescaped(raw@) is Some,
        r matches Some(v) ==> xml_unescaped(raw@) == Some(v@),
        r is None || raw@.contains('&') || r.unwrap()@ == raw@,
        r is None ==> raw@.contains('&'),
{
    quick_xml::escape::unescape(raw).ok().map(|v| v.into_owned())
}

/// Appends `text` to `s`.
///
/// Calls `String::push_str`.
#[verifier::external_body]
fn append_str(s: &mut String, text: &str)
    ensures
        final(s)@ == old(s)@ + text@,
{
    s.push_str(text)
}

/// The event at hand as plain values; `None` at the end of the input.
fn xml_item(event: XmlEvent) -> (r: Option<XmlItem>)
    ensures
        r is None <==> event is Eof,
        r matches Some(it) ==> item_view(it) == event_view(event),
{
    let ghost view = event_view(event);
    match event {
        XmlEvent::Start(tag) => {
            let item = XmlItem::Start { name: start_name(&tag), attributes: start_attributes(&tag) };
            Some(item)
        },
        XmlEvent::Empty(tag) => {
            let item = XmlItem::Empty { name: start_name(&tag), attributes: start_attributes(&tag) };
            Some(item)
        },
        XmlEvent::End(tag) => Some(XmlItem::End { name: end_name(&tag) }),
        XmlEvent::Text(text) => Some(XmlItem::Text { raw: text_content(text) }),
        XmlEvent::GeneralRef(reference) => Some(
            XmlItem::GeneralRef { name: reference_name(&reference) },
        ),
        XmlEvent::Eof => None,
        XmlEvent::Failed => Some(XmlItem::Failed),
        XmlEvent::Other => Some(XmlItem::Other),
    }
}

/// The events of `xml` in reading order, up to the first error (included)
/// or the end of the input.
fn xml_items(xml: &str) -> (r: Vec<XmlItem>)
    ensures
        items_view(r@) == before_end(xml_views(xml@)),
{
    let mut reader = xml_reader(xml);
    let ghost all = xml_views(xml@);
    let mut items: Vec<XmlItem> = Vec::new();
    loop
        invariant_except_break
            items@.len() < all.len(),
            reader_views(reader) == all.skip(items@.len() as int),
        invariant
            ends_once(all),
            items_view(items@) == all.take(items@.len() as int),
        ensures
            items_view(items@) == before_end(all),
        decreases all.len() - items@.len(),
    {
        let ghost k = items@.len() as int;
        let event = read_xml_event(&mut reader);
        assert(event_view(event) == all[k]);
        match xml_item(event) {
            Some(item) => {
                let failed = match item {
                    XmlItem::Failed => true,
                    _ => false,
                };
                items.push(item);
                assert(items_view(items@) =~= all.take(k + 1));
                if failed {
                    assert(all[k] is Failed);
                    assert(k == all.len() - 1);
                    assert(all.take(k + 1) =~= all);
                    break;
                }
                assert(!(all[k] is Failed) && !(all[k] is Eof));
                assert(k < all.len() - 1);
                assert(all.skip(k).drop_first() =~= all.skip(k + 1));
            },
            None => {
                assert(all[k] is Eof);
                assert(k == all.len() - 1);
                assert(all.take(k) =~= all.drop_last());
                break;
            },
        }
    }
    items
}

/// The value of the last attribute keyed `key` among `attributes`
/// (malformed ones skipped); `None` when there is none.
pub open spec fn last_value(attributes: Seq<Option<XmlAttribute>>, key: Seq<char>) -> Option<String>
    decreases attributes.len(),
{
    if attributes.len() == 0 {
        None
    } else {
        match attributes.last() {
            Some(a) => if a.key@ == key {
                a.value
            } else {
                last_value(attributes.drop_last(), key)
            },
            None => last_value(attributes.drop_last(), key),
        }
    }
}

/// The variable that a `variable` tag with these attributes declares.
pub open spec fn variable_of(attributes: Seq<Option<XmlAttribute>>) -> VariableSet {
    VariableSet {
        var_name: last_value(attributes, "varName"@),
        trait_name: last_value(attributes, "trait"@),
        doc_ref: last_value(attributes, "docRef"@),
        placement_method: last_value(attributes, "placementMethod"@),
        align: last_value(attributes, "align"@),
        valign: last_value(attributes, "valign"@),
        clip: last_value(attributes, "clip"@),
    }
}

/// The variables declared by the `variable` tags (start or empty) from
/// position `i` on, up to the first reading error.
pub open spec fn variables_from(items: Seq<XmlItem>, i: int) -> Seq<VariableSet>
    decreases items.len() - i,
{
    if i >= items.len() {
        seq![]
    } else {
        match items[i] {
            XmlItem::Failed => seq![],
            XmlItem::Start { name, attributes } => if name@ == "variable"@ {
                seq![variable_of(attributes@)] + variables_from(items, i + 1)
            } else {
                variables_from(items, i + 1)
            },
            XmlItem::Empty { name, attributes } => if name@ == "variable"@ {
                seq![variable_of(attributes@)] + variables_from(items, i + 1)
            } else {
                variables_from(items, i + 1)
            },
            _ => variables_from(items, i + 1),
        }
    }
}

/// The value of the last attribute keyed `key`.
fn attribute_value(attributes: &[Option<XmlAttribute>], key: &str) -> (r: Option<String>)
    ensures
        r == last_value(attributes@, key@),
{
    let mut found: Option<String> = None;
    let mut j: usize = 0;
    while j < attributes.len()
        invariant
            j <= attributes.len(),
            found == last_value(attributes@.take(j as int), key@),
        decreases attributes.len() - j,
    {
        assert(attributes@.take(j + 1).drop_last() =~= attributes@.take(j as int));
        match &attributes[j] {
            Some(a) => {
                if str_equal(a.key.as_str(), key) {
                    found = match &a.value {
                        Some(v) => Some(v.clone()),
                        None => None,
                    };
                }
            },
            None => {},
        }
        j = j + 1;
    }
    assert(attributes@.take(attributes.len() as int) =~= attributes@);
    found
}

/// The variable that a `variable` tag with these attributes declares.
fn variable_from_attributes(attributes: &[Option<XmlAttribute>]) -> (r: VariableSet)
    ensures
        r == variable_of(attributes@),
{
    VariableSet {
        var_name: attribute_value(attributes, "varName"),
        trait_name: attribute_value(attributes, "trait"),
        doc_ref: attribute_value(attributes, "docRef"),
        placement_method: attribute_value(attributes, "placementMethod"),
        align: attribute_value(attributes, "align"),
        valign: attribute_value(attributes, "valign"),
        clip: attribute_value(attributes, "clip"),
    }
}

/// The variables declared by the `variable` tags among `items`, in order,
/// up to the first reading error.
pub fn variables_from_items(items: &[XmlItem]) -> (r: Vec<VariableSet>)
    ensures
        r@ == variables_from(items@, 0),
{
    let mut variables: Vec<VariableSet> = Vec::new();
    let mut i: usize = 0;
    while i < items.len()
        invariant
            i <= items.len(),
            variables@ + variables_from(items@, i as int) == variables_from(items@, 0),
        decreases items.len() - i,
    {
        match &items[i] {
            XmlItem::Failed => {
                assert(variables_from(items@, i as int) == Seq::<VariableSet>::empty());
                assert(variables@ + Seq::<VariableSet>::empty() =~= variables@);
                return variables;
            },
            XmlItem::Start { name, attributes } | XmlItem::Empty { name, attributes } => {
                if str_equal(name.as_str(), "variable") {
                    let v = variable_from_attributes(attributes.as_slice());
                    assert(variables@.push(v) + variables_from(items@, i + 1) =~= variables@ + (
                    seq![v] + variables_from(items@, i + 1)));
                    variables.push(v);
                }
            },
            _ => {},
        }
        i = i + 1;
    }
    assert(variables@ + Seq::<VariableSet>::empty() =~= variables@);
    variables
}

/// Reads the variable sets of a variables document (resource 7000): one
/// per `variable` tag, in document order, each attribute taken from the
/// last occurrence of its key; reading stops at the first error.
pub fn parse_variables_xml(xml: &str) -> (r: Vec<VariableSet>)
    ensures
        exists|items: Seq<XmlItem>|
            items_view(items) == before_end(xml_views(xml@)) && r@ == #[trigger] variables_from(items, 0),
{
    let items = xml_items(xml);
    variables_from_items(items.as_slice())
}

/// What a text event contributes to a cell: its content with references
/// replaced, or the content as it stands where that fails.
pub open spec fn decoded_text(raw: Seq<char>) -> Seq<char> {
    match xml_unescaped(raw) {
        Some(v) => v,
        None => raw,
    }
}

/// What a general entity reference contributes to a cell: the character of
/// one of the five predefined entities, nothing for any other.
pub open spec fn reference_text(name: Seq<char>) -> Seq<char> {
    if name == "amp"@ {
        "&"@
    } else if name == "lt"@ {
        "<"@
    } else if name == "gt"@ {
        ">"@
    } else if name == "quot"@ {
        "\""@
    } else if name == "apos"@ {
        "'"@
    } else {
        seq![]
    }
}

/// The text of an element whose start tag has been read, gathered from
/// position `i` onto `acc`, and the position after the end tag named `end`
/// (or after the first reading error, or the end of the items).
pub open spec fn element_text(items: Seq<XmlItem>, i: int, end: Seq<char>, acc: Seq<char>) -> (
    Seq<char>,
    int,
)
    decreases items.len() - i,
{
    if i >= items.len() {
        (acc, items.len() as int)
    } else {
        match items[i] {
            XmlItem::Text { raw } => element_text(items, i + 1, end, acc + decoded_text(raw@)),
            XmlItem::GeneralRef { name } => element_text(
                items,
                i + 1,
                end,
                acc + reference_text(name@),
            ),
            XmlItem::End { name } => if name@ == end {
                (acc, i + 1)
            } else {
                element_text(items, i + 1, end, acc)
            },
            XmlItem::Failed => (acc, i + 1),
            _ => element_text(items, i + 1, end, acc),
        }
    }
}

/// Reading an element's text moves past position `i` and stays within the items.
pub proof fn lemma_element_text_advances(items: Seq<XmlItem>, i: int, end: Seq<char>, acc: Seq<char>)
    requires
        0 <= i <= items.len(),
    ensures
        i <= element_text(items, i, end, acc).1 <= items.len(),
        i < items.len() ==> i < element_text(items, i, end, acc).1,
    decreases items.len() - i,
{
    if i < items.len() {
        match items[i] {
            XmlItem::Text { raw } => lemma_element_text_advances(
                items,
                i + 1,
                end,
                acc + decoded_text(raw@),
            ),
            XmlItem::GeneralRef { name } => lemma_element_text_advances(
                items,
                i + 1,
                end,
                acc + reference_text(name@),
            ),
            XmlItem::End { name } => if name@ != end {
                lemma_element_text_advances(items, i + 1, end, acc)
            },
            XmlItem::Failed => {},
            _ => lemma_element_text_advances(items, i + 1, end, acc),
        }
    }
}

/// The tag names of a data set's cells.
pub open spec fn cell_names(cells: Seq<(Seq<char>, Seq<char>)>) -> Seq<Seq<char>> {
    cells.map_values(|c: (Seq<char>, Seq<char>)| c.0)
}

/// The values of a data set's cells.
pub open spec fn cell_values(cells: Seq<(Seq<char>, Seq<char>)>) -> Seq<Seq<char>> {
    cells.map_values(|c: (Seq<char>, Seq<char>)| c.1)
}

/// The table once a data set with these cells has closed: a data set with
/// cells adds a row of their values, and its tag names become the header
/// row when that is still empty.
pub open spec fn close_data_set(table: Seq<Seq<Seq<char>>>, cells: Seq<(Seq<char>, Seq<char>)>) -> Seq<
    Seq<Seq<char>>,
> {
    if cells.len() == 0 {
        table
    } else {
        let named = if table[0].len() == 0 {
            table.update(0, cell_names(cells))
        } else {
            table
        };
        named.push(cell_values(cells))
    }
}

/// The data-set table built from position `i` on, with `table` so far,
/// the cells of the current data set, and whether one is open.
pub open spec fn data_sets_from(
    items: Seq<XmlItem>,
    i: int,
    table: Seq<Seq<Seq<char>>>,
    cells: Seq<(Seq<char>, Seq<char>)>,
    open: bool,
) -> Seq<Seq<Seq<char>>>
    decreases items.len() - i,
{
    if i < 0 || i >= items.len() {
        table
    } else {
        match items[i] {
            XmlItem::Start { name, .. } => if name@ == "sampleDataSet"@ {
                data_sets_from(items, i + 1, table, seq![], true)
            } else if open {
                let (value, next) = element_text(items, i + 1, name@, seq![]);
                if i < next <= items.len() {
                    data_sets_from(items, next, table, cells.push((name@, value)), open)
                } else {
                    table
                }
            } else {
                data_sets_from(items, i + 1, table, cells, open)
            },
            XmlItem::End { name } => if name@ == "sampleDataSet"@ {
                data_sets_from(items, i + 1, close_data_set(table, cells), cells, false)
            } else {
                data_sets_from(items, i + 1, table, cells, open)
            },
            XmlItem::Failed => table,
            _ => data_sets_from(items, i + 1, table, cells, open),
        }
    }
}

/// The data-set table of `items`: a header row of tag names, then one row
/// of values per data set with cells.
pub open spec fn data_sets_of(items: Seq<XmlItem>) -> Seq<Seq<Seq<char>>> {
    data_sets_from(items, 0, seq![seq![]], seq![], false)
}

/// The characters of each string of a row.
pub open spec fn row_view(row: Vec<String>) -> Seq<Seq<char>> {
    row@.map_values(|s: String| s@)
}

/// The characters of each string of a table.
pub open spec fn table_view(table: Seq<Vec<String>>) -> Seq<Seq<Seq<char>>> {
    table.map_values(|row: Vec<String>| row_view(row))
}

/// The characters of each cell's tag name and value.
pub open spec fn cells_view(cells: Seq<(String, String)>) -> Seq<(Seq<char>, Seq<char>)> {
    cells.map_values(|c: (String, String)| (c.0@, c.1@))
}

/// Replaces the references of a text event's content; the content as it
/// stands where that fails.
pub fn decode_xml_text(raw: &str) -> (r: String)
    ensures
        r@ == decoded_text(raw@),
{
    match xml_unescape(raw) {
        Some(v) => v,
        None => raw.to_owned(),
    }
}

/// Gathers the text of an element whose start tag stands just before
/// position `start`: text events (with references replaced) and general
/// entity references, up to the end tag named `end_name`.  Also returns the
/// position after that end tag (or after the first reading error).
pub fn read_element_text(items: &[XmlItem], start: usize, end_name: &str) -> (r: (String, usize))
    requires
        start <= items.len(),
    ensures
        (r.0@, r.1 as int) == element_text(items@, start as int, end_name@, seq![]),
{
    let mut value = String::new();
    let mut i: usize = start;
    while i < items.len()
        invariant
            start <= i <= items.len(),
            element_text(items@, i as int, end_name@, value@) == element_text(
                items@,
                start as int,
                end_name@,
                seq![],
            ),
        decreases items.len() - i,
    {
        match &items[i] {
            XmlItem::Text { raw } => {
                let text = decode_xml_text(raw.as_str());
                append_str(&mut value, text.as_str());
            },
            XmlItem::GeneralRef { name } => {
                if str_equal(name.as_str(), "amp") {
                    append_str(&mut value, "&");
                } else if str_equal(name.as_str(), "lt") {
                    append_str(&mut value, "<");
                } else if str_equal(name.as_str(), "gt") {
                    append_str(&mut value, ">");
                } else if str_equal(name.as_str(), "quot") {
                    append_str(&mut value, "\"");
                } else if str_equal(name.as_str(), "apos") {
                    append_str(&mut value, "'");
                } else {
                    assert(value@ + reference_text(name@) =~= value@);
                }
            },
            XmlItem::End { name } => {
                if str_equal(name.as_str(), end_name) {
                    return (value, i + 1);
                }
            },
            XmlItem::Failed => {
                return (value, i + 1);
            },
            _ => {},
        }
        i = i + 1;
    }
    (value, i)
}

/// The tag names of the cells, as a row.
fn cell_name_row(cells: &Vec<(String, String)>) -> (r: Vec<String>)
    ensures
        row_view(r) == cell_names(cells_view(cells@)),
{
    let mut row: Vec<String> = Vec::new();
    let mut j: usize = 0;
    while j < cells.len()
        invariant
            j <= cells.len(),
            row_view(row) == cell_names(cells_view(cells@)).take(j as int),
        decreases cells.len() - j,
    {
        let name = cells[j].0.clone();
        assert(row_view(row).push(name@) =~= row@.push(name).map_values(|s: String| s@));
        assert(cell_names(cells_view(cells@)).take(j + 1) =~= cell_names(cells_view(cells@)).take(
            j as int,
        ).push(name@));
        row.push(name);
        j = j + 1;
    }
    assert(cell_names(cells_view(cells@)).take(j as int) =~= cell_names(cells_view(cells@)));
    row
}

/// The values of the cells, as a row.
fn cell_value_row(cells: &Vec<(String, String)>) -> (r: Vec<String>)
    ensures
        row_view(r) == cell_values(cells_view(cells@)),
{
    let mut row: Vec<String> = Vec::new();
    let mut j: usize = 0;
    while j < cells.len()
        invariant
            j <= cells.len(),
            row_view(row) == cell_values(cells_view(cells@)).take(j as int),
        decreases cells.len() - j,
    {
        let value = cells[j].1.clone();
        assert(row_view(row).push(value@) =~= row@.push(value).map_values(|s: String| s@));
        assert(cell_values(cells_view(cells@)).take(j + 1) =~= cell_values(cells_view(cells@)).take(
            j as int,
        ).push(value@));
        row.push(value);
        j = j + 1;
    }
    assert(cell_values(cells_view(cells@)).take(j as int) =~= cell_values(cells_view(cells@)));
    row
}

/// Closes a data set with these cells (see [`close_data_set`]).
fn close_data_set_rows(table: &mut Vec<Vec<String>>, cells: &Vec<(String, String)>)
    requires
        old(table)@.len() >= 1,
    ensures
        final(table)@.len() >= 1,
        table_view(final(table)@) == close_data_set(table_view(old(table)@), cells_view(cells@)),
{
    if cells.len() > 0 {
        if table[0].len() == 0 {
            let names = cell_name_row(cells);
            assert(table_view(table@.update(0, names)) =~= table_view(table@).update(0, row_view(names)));
            table.set(0, names);
        }
        let values = cell_value_row(cells);
        assert(table_view(table@.push(values)) =~= table_view(table@).push(row_view(values)));
        table.push(values);
    }
}

/// The data-set table of `items`: the first row holds the tag names of the
/// first data set with cells, each data set with cells adds a row of its
/// cell values; reading stops at the first error.
pub fn data_sets_from_items(items: &[XmlItem]) -> (r: Vec<Vec<String>>)
    ensures
        table_view(r@) == data_sets_of(items@),
{
    let mut table: Vec<Vec<String>> = Vec::new();
    table.push(Vec::new());
    let mut cells: Vec<(String, String)> = Vec::new();
    let mut open = false;
    let mut i: usize = 0;
    assert(table_view(table@) =~= seq![seq![]]) by {
        assert(row_view(table@[0]) =~= Seq::<Seq<char>>::empty());
    }
    assert(cells_view(cells@) =~= Seq::<(Seq<char>, Seq<char>)>::empty());
    while i < items.len()
        invariant
            i <= items.len(),
            table@.len() >= 1,
            data_sets_from(items@, i as int, table_view(table@), cells_view(cells@), open)
                == data_sets_of(items@),
        decreases items.len() - i,
    {
        match &items[i] {
            XmlItem::Start { name, .. } => {
                if str_equal(name.as_str(), "sampleDataSet") {
                    open = true;
                    cells.clear();
                    assert(cells_view(cells@) =~= Seq::<(Seq<char>, Seq<char>)>::empty());
                    i = i + 1;
                } else if open {
                    let (value, next) = read_element_text(items, i + 1, name.as_str());
                    proof {
                        lemma_element_text_advances(items@, i + 1, name@, seq![]);
                    }
                    let tag = name.clone();
                    assert(cells_view(cells@.push((tag, value))) =~= cells_view(cells@).push(
                        (name@, value@),
                    ));
                    cells.push((tag, value));
                    i = next;
                } else {
                    i = i + 1;
                }
            },
            XmlItem::End { name } => {
                if str_equal(name.as_str(), "sampleDataSet") {
                    close_data_set_rows(&mut table, &cells);
                    open = false;
                }
                i = i + 1;
            },
            XmlItem::Failed => {
                return table;
            },
            _ => {
                i = i + 1;
            },
        }
    }
    table
}

/// Reads the table of a data-sets document (resource 7001): the first row
/// holds the tag names of the first `sampleDataSet` with cells, then each
/// `sampleDataSet` with cells adds a row of its cells' text; reading stops
/// at the first error.
pub fn parse_data_sets_xml(xml: &str) -> (r: Vec<Vec<String>>)
    ensures
        exists|items: Seq<XmlItem>|
            items_view(items) == before_end(xml_views(xml@)) && table_view(r@) == #[trigger] data_sets_of(items),
{
    let items = xml_items(xml);
    data_sets_from_items(items.as_slice())
}

#[verifier::external_type_specification]
#[verifier::external_body]
#[verifier::reject_recursive_types(W)]
pub struct ExXmlWriter<W>(Writer<W>);

/// One character as `quick_xml` escapes it: in text `<`, `>`, `&`, `'`,
/// `"` and carriage return; in attribute values also line feed and tab.
pub open spec fn escaped_char(c: char, attribute: bool) -> Seq<char> {
    if c == '<' {
        "&lt;"@
    } else if c == '>' {
        "&gt;"@
    } else if c == '&' {
        "&amp;"@
    } else if c == '\'' {
        "&apos;"@
    } else if c == '"' {
        "&quot;"@
    } else if c == '\r' {
        "&#13;"@
    } else if attribute && c == '\n' {
        "&#10;"@
    } else if attribute && c == '\t' {
        "&#9;"@
    } else {
        seq![c]
    }
}

/// `text` escaped character by character.
pub open spec fn xml_escaped(text: Seq<char>, attribute: bool) -> Seq<char>
    decreases text.len(),
{
    if text.len() == 0 {
        seq![]
    } else {
        xml_escaped(text.drop_last(), attribute) + escaped_char(text.last(), attribute)
    }
}

/// The text that `writer` holds so far.
pub uninterp spec fn xml_output(writer: Writer<Vec<u8>>) -> Seq<char>;

/// The text of a tag under construction: its name, then its attributes.
pub uninterp spec fn tag_text(tag: BytesStart<'static>) -> Seq<char>;

/// A writer that holds nothing yet, without indentation.
///
/// Calls `Writer::new` on an empty `Vec<u8>`.
#[verifier::external_body]
fn new_xml_writer() -> (r: Writer<Vec<u8>>)
    ensures
        xml_output(r) == Seq::<char>::empty(),
{
    Writer::new(Vec::new())
}

/// A tag named `name`, without attributes.
///
/// Calls `BytesStart::new`, whose text is the name.
#[verifier::external_body]
fn new_tag(name: &str) -> (r: BytesStart<'static>)
    ensures
        tag_text(r) == name@,
{
    BytesStart::new(name.to_string())
}

/// Adds the attribute `key="value"` to `tag`.
///
/// Calls `BytesStart::push_attribute` with a key and value pair, which
/// appends a space, the key as it stands, `="`, the value escaped for an
/// attribute, and `"`.
#[verifier::external_body]
fn push_tag_attribute(tag: &mut BytesStart<'static>, key: &str, value: &str)
    ensures
        tag_text(*final(tag)) == tag_text(*old(tag)) + " "@ + key@ + "=\""@ + xml_escaped(
            value@,
            true,
        ) + "\""@,
{
    tag.push_attribute((key, value))
}

/// Writes `tag` as a start tag.
///
/// Calls `Writer::write_event` with `Event::Start`, which writes `<`, the
/// tag's text and `>`; writing into a `Vec<u8>` appends and does not fail.
#[verifier::external_body]
fn write_start_tag(writer: &mut Writer<Vec<u8>>, tag: BytesStart<'static>)
    ensures
        xml_output(*final(writer)) == xml_output(*old(writer)) + "<"@ + tag_text(tag) + ">"@,
{
    let _ = writer.write_event(Event::Start(tag));
}

/// Writes `tag` as an empty element.
///
/// Calls `Writer::write_event` with `Event::Empty`, which writes `<`, the
/// tag's text and `/>` (no space before the slash is the default).
#[verifier::external_body]
fn write_empty_tag(writer: &mut Writer<Vec<u8>>, tag: BytesStart<'static>)
    ensures
        xml_output(*final(writer)) == xml_output(*old(writer)) + "<"@ + tag_text(tag) + "/>"@,
{
    let _ = writer.write_event(Event::Empty(tag));
}

/// Writes the end tag named `name`.
///
/// Calls `Writer::write_event` with `Event::End` of `BytesEnd::new`, which
/// writes `</`, the name and `>`.
#[verifier::external_body]
fn write_end_tag(writer: &mut Writer<Vec<u8>>, name: &str)
    ensures
        xml_output(*final(writer)) == xml_output(*old(writer)) + "</"@ + name@ + ">"@,
{
    let _ = writer.write_event(Event::End(BytesEnd::new(name)));
}

/// Writes `text` as element content.
///
/// Calls `Writer::write_event` with `Event::Text` of `BytesText::new`, which
/// escapes the text.
#[verifier::external_body]
fn write_text(writer: &mut Writer<Vec<u8>>, text: &str)
    ensures
        xml_output(*final(writer)) == xml_output(*old(writer)) + xml_escaped(text@, false),
{
    let _ = writer.write_event(Event::Text(BytesText::new(text)));
}

/// The text that `writer` holds.
///
/// Calls `Writer::into_inner` and decodes the bytes, which are the UTF-8
/// encoding of the strings written.
#[verifier::external_body]
fn finish_xml(writer: Writer<Vec<u8>>) -> (r: String)
    ensures
        r@ == xml_output(writer),
{
    String::from_utf8_lossy(&writer.into_inner()).into_owned()
}

/// The text an optional attribute adds to a tag: nothing when absent.
pub open spec fn optional_attribute_text(key: Seq<char>, value: Option<String>) -> Seq<char> {
    match value {
        Some(v) => " "@ + key + "=\""@ + xml_escaped(v@, true) + "\""@,
        None => seq![],
    }
}

/// The text of the `variable` tag that declares `v`.
pub open spec fn variable_tag_text(v: VariableSet) -> Seq<char> {
    "variable"@ + optional_attribute_text("varName"@, v.var_name) + optional_attribute_text(
        "trait"@,
        v.trait_name,
    ) + optional_attribute_text("docRef"@, v.doc_ref) + optional_attribute_text(
        "placementMethod"@,
        v.placement_method,
    ) + optional_attribute_text("align"@, v.align) + optional_attribute_text("valign"@, v.valign)
        + optional_attribute_text("clip"@, v.clip)
}

/// The empty `variable` elements of `variables`, in order.
pub open spec fn variable_elements(variables: Seq<VariableSet>) -> Seq<char>
    decreases variables.len(),
{
    if variables.len() == 0 {
        seq![]
    } else {
        variable_elements(variables.drop_last()) + "<"@ + variable_tag_text(variables.last())
            + "/>"@
    }
}

/// The variables document that declares `variables`.
pub open spec fn variables_xml(variables: Seq<VariableSet>) -> Seq<char> {
    "<"@ + "variableSets"@ + ">"@ + "<"@ + "variableSet"@ + ">"@ + "<"@ + "variables"@ + ">"@
        + variable_elements(variables) + "</"@ + "variables"@ + ">"@ + "</"@ + "variableSet"@
        + ">"@ + "</"@ + "variableSets"@ + ">"@
}

/// Adds `key="value"` to `tag` when `value` is present.
fn push_optional_attribute(tag: &mut BytesStart<'static>, key: &str, value: &Option<String>)
    ensures
        tag_text(*final(tag)) == tag_text(*old(tag)) + optional_attribute_text(key@, *value),
{
    match value {
        Some(v) => push_tag_attribute(tag, key, v.as_str()),
        None => {
            assert(tag_text(*tag) + Seq::<char>::empty() =~= tag_text(*tag));
        },
    }
}

/// The `variable` tag that declares `v`.
fn variable_tag(v: &VariableSet) -> (r: BytesStart<'static>)
    ensures
        tag_text(r) == variable_tag_text(*v),
{
    let mut tag = new_tag("variable");
    push_optional_attribute(&mut tag, "varName", &v.var_name);
    push_optional_attribute(&mut tag, "trait", &v.trait_name);
    push_optional_attribute(&mut tag, "docRef", &v.doc_ref);
    push_optional_attribute(&mut tag, "placementMethod", &v.placement_method);
    push_optional_attribute(&mut tag, "align", &v.align);
    push_optional_attribute(&mut tag, "valign", &v.valign);
    push_optional_attribute(&mut tag, "clip", &v.clip);
    tag
}

/// Writes a variables document (resource 7000): `variableSets`, one
/// `variableSet`, and in its `variables` an empty `variable` element per
/// entry, carrying its present attributes in a fixed order.
pub fn build_variables_xml(variables: &[VariableSet]) -> (r: String)
    ensures
        r@ == variables_xml(variables@),
{
    let mut writer = new_xml_writer();
    write_start_tag(&mut writer, new_tag("variableSets"));
    write_start_tag(&mut writer, new_tag("variableSet"));
    write_start_tag(&mut writer, new_tag("variables"));
    let ghost head = xml_output(writer);
    let mut i: usize = 0;
    assert(variables@.take(0) =~= Seq::<VariableSet>::empty());
    assert(head + variable_elements(variables@.take(0)) =~= head);
    while i < variables.len()
        invariant
            i <= variables.len(),
            xml_output(writer) == head + variable_elements(variables@.take(i as int)),
        decreases variables.len() - i,
    {
        let tag = variable_tag(&variables[i]);
        write_empty_tag(&mut writer, tag);
        assert(variables@.take(i + 1).drop_last() =~= variables@.take(i as int));
        i = i + 1;
    }
    assert(variables@.take(variables.len() as int) =~= variables@);
    write_end_tag(&mut writer, "variables");
    write_end_tag(&mut writer, "variableSet");
    write_end_tag(&mut writer, "variableSets");
    finish_xml(writer)
}

/// One data-set cell: the element named `tag` holding `value` as text.
pub open spec fn cell_xml(tag: Seq<char>, value: Seq<char>) -> Seq<char> {
    "<"@ + tag + ">"@ + xml_escaped(value, false) + "</"@ + tag + ">"@
}

/// The value of column `k` of `record`, empty where the record is short.
pub open spec fn record_value(record: Seq<Seq<char>>, k: int) -> Seq<char> {
    if 0 <= k < record.len() {
        record[k]
    } else {
        seq![]
    }
}

/// The cells of `record` under the first `n` header names.
pub open spec fn record_cells_xml(header: Seq<Seq<char>>, record: Seq<Seq<char>>, n: int) -> Seq<
    char,
>
    decreases n,
{
    if n <= 0 {
        seq![]
    } else {
        record_cells_xml(header, record, n - 1) + cell_xml(header[n - 1], record_value(record, n - 1))
    }
}

/// The `sampleDataSet` elements of rows `1..n` of `table`, under the
/// header `table[0]`.
pub open spec fn data_set_elements(table: Seq<Seq<Seq<char>>>, n: int) -> Seq<char>
    decreases n,
{
    if n <= 1 {
        seq![]
    } else {
        data_set_elements(table, n - 1) + "<"@ + "sampleDataSet"@ + ">"@ + record_cells_xml(
            table[0],
            table[n - 1],
            table[0].len() as int,
        ) + "</"@ + "sampleDataSet"@ + ">"@
    }
}

/// The data-sets document of `table`: the first row names the cells, each
/// further row is a data set.
pub open spec fn data_sets_xml(table: Seq<Seq<Seq<char>>>) -> Seq<char> {
    "<"@ + "sampleDataSets"@ + ">"@ + data_set_elements(table, table.len() as int) + "</"@
        + "sampleDataSets"@ + ">"@
}

/// Writes one data set: a cell per header name, holding the record's value
/// in that column (empty where the record is short).
fn write_data_set(writer: &mut Writer<Vec<u8>>, header: &Vec<String>, record: &Vec<String>)
    ensures
        xml_output(*final(writer)) == xml_output(*old(writer)) + "<"@ + "sampleDataSet"@ + ">"@
            + record_cells_xml(row_view(*header), row_view(*record), header.len() as int) + "</"@
            + "sampleDataSet"@ + ">"@,
{
    write_start_tag(writer, new_tag("sampleDataSet"));
    let ghost head = xml_output(*writer);
    let mut k: usize = 0;
    assert(head + record_cells_xml(row_view(*header), row_view(*record), 0) =~= head);
    while k < header.len()
        invariant
            k <= header.len(),
            xml_output(*writer) == head + record_cells_xml(row_view(*header), row_view(*record), k as int),
        decreases header.len() - k,
    {
        let tag = header[k].as_str();
        write_start_tag(writer, new_tag(tag));
        if k < record.len() {
            write_text(writer, record[k].as_str());
        } else {
            write_text(writer, "");
            assert(xml_escaped(""@, false) =~= Seq::<char>::empty()) by {
                reveal_strlit("");
            }
        }
        write_end_tag(writer, tag);
        assert(xml_output(*writer) =~= head + record_cells_xml(
            row_view(*header),
            row_view(*record),
            k + 1,
        ));
        k = k + 1;
    }
    write_end_tag(writer, "sampleDataSet");
}

/// Writes a data-sets document (resource 7001) from a table whose first row
/// holds the cell names: one `sampleDataSet` per further row.  An empty
/// table gives an empty `sampleDataSets`.
pub fn build_data_sets_xml(table: &[Vec<String>]) -> (r: String)
    ensures
        r@ == data_sets_xml(table_view(table@)),
{
    let mut writer = new_xml_writer();
    write_start_tag(&mut writer, new_tag("sampleDataSets"));
    let ghost head = xml_output(writer);
    let ghost view = table_view(table@);
    if table.len() > 0 {
        let header = &table[0];
        let mut i: usize = 1;
        assert(head + data_set_elements(view, 1) =~= head);
        while i < table.len()
            invariant
                1 <= i <= table.len(),
                view == table_view(table@),
                header == table@[0],
                xml_output(writer) == head + data_set_elements(view, i as int),
            decreases table.len() - i,
        {
            write_data_set(&mut writer, header, &table[i]);
            assert(xml_output(writer) =~= head + data_set_elements(view, i + 1));
            i = i + 1;
        }
    } else {
        assert(head + data_set_elements(view, 0) =~= head);
    }
    write_end_tag(&mut writer, "sampleDataSets");
    finish_xml(writer)
}

} // verus!
