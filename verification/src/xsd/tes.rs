use std::collections::HashMap;
use vstd::prelude::*;
use crate::document::{xml_events, xml_failure_message, xml_failure_position};
use crate::stream::{
    entry_views, feed_steps, inputs, lemma_feed_steps_defined, lemma_steps_accepted_extend, lemma_steps_accepted_prefix, read_entries,
    run_steps, steps_accepted, EntryReader,
};
use crate::events::{depth_fits, well_nested, end_advance, failure_matches, StreamEnd, open_names, opt_attrs, opt_chars, read_view, Advance, EventView, ReadErrorKind, XmlAttribute, XmlEvent};
use crate::xsd::{lookup, opens_pending};

verus! {

/// One element of an XML Schema document, with the name of the element
/// around it.
#[derive(Clone, Debug, PartialEq, Eq)]
pub struct XsdEntry {
    pub tag: String,
    pub parent: String,
    pub node: u32,
    pub attributes: Option<Vec<XmlAttribute>>,
    pub value: Option<String>,
}

/// The contents of an `XsdEntry`.
pub struct XsdEntryView {
    pub tag: Seq<char>,
    pub parent: Seq<char>,
    pub node: u32,
    pub attributes: Option<Seq<XmlAttribute>>,
    pub value: Option<Seq<char>>,
}

impl View for XsdEntry {
    type V = XsdEntryView;

    open spec fn view(&self) -> XsdEntryView {
        XsdEntryView {
            tag: self.tag@,
            parent: self.parent@,
            node: self.node,
            attributes: opt_attrs(self.attributes),
            value: opt_chars(self.value),
        }
    }
}

/// Whether an element is open and waiting to be handed out.
#[derive(Clone, Copy, Debug, PartialEq, Eq, Structural)]
pub enum XsdEvent {
    Off,
    On,
}

/// The state of a reader that hands out each element of an XML Schema
/// document together with the element around it.
pub struct SchemaState {
    node: u32,
    nodes: HashMap<u32, String>,
    tag: Option<String>,
    parent: Option<String>,
    attributes: Option<Vec<XmlAttribute>>,
    value: Option<String>,
    state: XsdEvent,
}

/// The contents of a `SchemaState`.
pub struct SchemaView {
    /// How many elements are open.
    pub node: u32,
    /// The name of the element last opened at each depth.
    pub nodes: Map<u32, Seq<char>>,
    pub tag: Option<Seq<char>>,
    pub parent: Option<Seq<char>>,
    pub attributes: Option<Seq<XmlAttribute>>,
    pub value: Option<Seq<char>>,
    pub state: XsdEvent,
}

impl View for SchemaState {
    type V = SchemaView;

    closed spec fn view(&self) -> SchemaView {
        SchemaView {
            node: self.node,
            nodes: self.nodes@.map_values(|v: String| v@),
            tag: opt_chars(self.tag),
            parent: opt_chars(self.parent),
            attributes: opt_attrs(self.attributes),
            value: opt_chars(self.value),
            state: self.state,
        }
    }
}

/// The state before any event.
pub open spec fn schema_initial() -> SchemaView {
    SchemaView {
        node: 0,
        nodes: Map::empty(),
        tag: None,
        parent: None,
        attributes: None,
        value: None,
        state: XsdEvent::Off,
    }
}

/// The events on which the reader can go on: an element cannot open past
/// `u32::MAX` levels; handing an element out needs its tag and the name of
/// the element around it; an element cannot close when none is open.
pub open spec fn schema_accepts(s: SchemaView, ev: Result<EventView, ReadErrorKind>) -> bool {
    match ev {
        Ok(EventView::StartElement { .. }) => {
            &&& s.node < u32::MAX
            &&& s.state == XsdEvent::On ==> s.tag is Some && lookup(s.nodes, s.node as int) is Some
        },
        Ok(EventView::Characters(_)) => s.tag is Some && s.parent is Some,
        Ok(EventView::EndElement { .. }) => s.node >= 1,
        _ => true,
    }
}

/// One step of the reader: the state after the event and what it hands out.
///
/// An element that opens looks up the name recorded one level up as the
/// parent. If no element is pending it becomes pending; otherwise the
/// pending one is handed out (numbered with the new depth, with that
/// parent) and the new one takes its place. Text hands the pending element
/// out with the text as its value and the parent last looked up. A closing
/// element only lowers the depth. The end of the document is not treated
/// apart from other events.
pub open spec fn schema_next(s: SchemaView, ev: Result<EventView, ReadErrorKind>) -> (
    SchemaView,
    Advance<XsdEntryView>,
) {
    match ev {
        Ok(EventView::StartElement { name, attributes }) => {
            let n = (s.node + 1) as u32;
            let parent = lookup(s.nodes, s.node as int);
            let nodes = s.nodes.insert(n, name);
            match s.state {
                XsdEvent::Off => (
                    SchemaView {
                        node: n,
                        nodes,
                        tag: Some(name),
                        parent,
                        attributes: Some(attributes),
                        state: XsdEvent::On,
                        ..s
                    },
                    Advance::Continue,
                ),
                XsdEvent::On => {
                    let out = XsdEntryView {
                        tag: s.tag.unwrap(),
                        node: n,
                        parent: parent.unwrap(),
                        attributes: s.attributes,
                        value: s.value,
                    };
                    (
                        SchemaView {
                            node: n,
                            nodes,
                            tag: Some(name),
                            parent: None,
                            attributes: Some(attributes),
                            value: None,
                            ..s
                        },
                        Advance::Yield(out),
                    )
                },
            }
        },
        Ok(EventView::Characters(text)) => {
            let out = XsdEntryView {
                tag: s.tag.unwrap(),
                node: s.node,
                parent: s.parent.unwrap(),
                attributes: s.attributes,
                value: Some(text),
            };
            (
                SchemaView {
                    tag: None,
                    parent: None,
                    attributes: None,
                    value: None,
                    state: XsdEvent::Off,
                    ..s
                },
                Advance::Yield(out),
            )
        },
        Ok(EventView::EndElement { .. }) => (
            SchemaView { node: (s.node - 1) as u32, state: XsdEvent::Off, ..s },
            Advance::Continue,
        ),
        Ok(_) => (s, Advance::Continue),
        Err(ReadErrorKind::UnexpectedEof) => (s, Advance::End),
        Err(_) => (s, Advance::Error),
    }
}

impl SchemaState {
    /// A reader at the start of a document.
    pub fn new() -> (r: Self)
        ensures
            r@ == schema_initial(),
    {
        let r = SchemaState {
            node: 0,
            nodes: HashMap::new(),
            tag: None,
            attributes: None,
            parent: None,
            value: None,
            state: XsdEvent::Off,
        };
        assert(r@.nodes =~= Map::empty());
        r
    }

    /// The name recorded at depth `k`, copied.
    fn find(&self, k: u32) -> (r: Option<String>)
        ensures
            opt_chars(r) == lookup(self@.nodes, k as int),
    {
        match self.nodes.get(&k) {
            Some(v) => Some(v.clone()),
            None => None,
        }
    }

    /// Records `name` at depth `n`.
    fn record(&mut self, n: u32, name: &String)
        ensures
            final(self)@ == (SchemaView { nodes: old(self)@.nodes.insert(n, name@), ..old(self)@ }),
    {
        let copy = name.clone();
        self.nodes.insert(n, copy);
        assert(self@.nodes =~= old(self)@.nodes.insert(n, name@));
    }

    /// Feeds one parser event to the reader.
    pub fn step(&mut self, ev: Result<XmlEvent, ReadErrorKind>) -> (r: Advance<XsdEntry>)
        requires
            schema_accepts(old(self)@, read_view(ev)),
        ensures
            (final(self)@, r@) == schema_next(old(self)@, read_view(ev)),
    {
        match ev {
            Ok(XmlEvent::StartElement { name, attributes }) => {
                let local = name;
                self.node = self.node + 1;
                self.parent = self.find(self.node - 1);
                match self.state {
                    XsdEvent::Off => {
                        self.record(self.node, &local);
                        self.tag = Some(local);
                        self.attributes = Some(attributes);
                        self.state = XsdEvent::On;
                        Advance::Continue
                    },
                    XsdEvent::On => {
                        let tag = match self.tag.take() {
                            Some(t) => t,
                            None => String::new(),
                        };
                        let parent = match self.parent.take() {
                            Some(p) => p,
                            None => String::new(),
                        };
                        let out = XsdEntry {
                            tag,
                            node: self.node,
                            parent,
                            attributes: self.attributes.take(),
                            value: self.value.take(),
                        };
                        self.record(self.node, &local);
                        self.tag = Some(local);
                        self.attributes = Some(attributes);
                        Advance::Yield(out)
                    },
                }
            },
            Ok(XmlEvent::Characters(text)) => {
                self.value = Some(text);
                let tag = match self.tag.take() {
                    Some(t) => t,
                    None => String::new(),
                };
                let parent = match self.parent.take() {
                    Some(p) => p,
                    None => String::new(),
                };
                let out = XsdEntry {
                    tag,
                    node: self.node,
                    parent,
                    attributes: self.attributes.take(),
                    value: self.value.take(),
                };
                self.state = XsdEvent::Off;
                Advance::Yield(out)
            },
            Ok(XmlEvent::EndElement { .. }) => {
                self.node = self.node - 1;
                self.state = XsdEvent::Off;
                Advance::Continue
            },
            Ok(_) => Advance::Continue,
            Err(ReadErrorKind::UnexpectedEof) => Advance::End,
            Err(_) => Advance::Error,
        }
    }

    /// Whether the reader can take an event.
    pub fn accepts(&self, ev: &Result<XmlEvent, ReadErrorKind>) -> (r: bool)
        ensures
            r == schema_accepts(self@, read_view(*ev)),
    {
        match ev {
            Ok(XmlEvent::StartElement { .. }) => self.node < u32::MAX && (matches!(self.state, XsdEvent::Off)
                || (self.tag.is_some() && self.nodes.contains_key(&self.node))),
            Ok(XmlEvent::Characters(_)) => self.tag.is_some() && self.parent.is_some(),
            Ok(XmlEvent::EndElement { .. }) => self.node >= 1,
            _ => true,
        }
    }
}

/// The element count follows the nesting: an element that opens adds one,
/// one that closes takes one away, any other event leaves it; and only an
/// opening element records a name, under the new count.
pub proof fn law_schema_depth(s: SchemaView, ev: Result<EventView, ReadErrorKind>)
    requires
        schema_accepts(s, ev),
    ensures
        ({
            let t = schema_next(s, ev).0;
            match ev {
                Ok(EventView::StartElement { name, .. }) => t.node == s.node + 1 && t.nodes
                    == s.nodes.insert(t.node, name),
                Ok(EventView::EndElement { .. }) => t.node == s.node - 1 && t.nodes == s.nodes,
                _ => t.node == s.node && t.nodes == s.nodes,
            }
        }),
{
}

/// An entry comes out exactly for text, or for an element opening while
/// another is pending; it is the pending element, with the name recorded
/// one level above the depth at which the current element opened as its
/// parent, and it is handed out once.
pub proof fn law_schema_entries(s: SchemaView, ev: Result<EventView, ReadErrorKind>)
    requires
        schema_accepts(s, ev),
    ensures
        ({
            let (t, r) = schema_next(s, ev);
            &&& (r is Yield) == (ev matches Ok(EventView::Characters(_)) || (ev matches Ok(
                EventView::StartElement { .. },
            ) && s.state == XsdEvent::On))
            &&& r matches Advance::Yield(e) ==> {
                &&& Some(e.tag) == s.tag
                &&& e.attributes == s.attributes
                &&& (ev matches Ok(EventView::Characters(text)) ==> e.value == Some(text) && e.node
                    == s.node && Some(e.parent) == s.parent)
                &&& (ev is Ok && ev->Ok_0 is StartElement ==> e.value == s.value && e.node == s.node + 1
                    && Some(e.parent) == lookup(s.nodes, s.node as int))
                &&& t.value is None && t.parent is None && t.tag is Some == (ev is Ok
                    && ev->Ok_0 is StartElement)
            }
        }),
{
}

/// The end of the input ends the stream; any other parser failure is
/// handed out as an error; the end of the document is passed over like a
/// comment. None of them changes the reader.
pub proof fn law_schema_end_and_failure(s: SchemaView, ev: Result<EventView, ReadErrorKind>)
    ensures
        ev == Err::<EventView, ReadErrorKind>(ReadErrorKind::UnexpectedEof) ==> schema_next(s, ev)
            == (s, Advance::<XsdEntryView>::End),
        (ev is Err && ev != Err::<EventView, ReadErrorKind>(ReadErrorKind::UnexpectedEof))
            ==> schema_next(s, ev) == (s, Advance::<XsdEntryView>::Error),
        ev matches Ok(EventView::EndDocument) ==> schema_next(s, ev) == (
            s,
            Advance::<XsdEntryView>::Continue,
        ),
{
}

/// An element that opens becomes the pending element with exactly the
/// attributes it opened with, whether or not another element was pending;
/// the next text or opening element hands it out under its name with those
/// attributes (and, for text, the text as its value).
pub proof fn law_schema_pending_keeps_its_attributes(
    s: SchemaView,
    name: Seq<char>,
    attrs: Seq<XmlAttribute>,
    next: Result<EventView, ReadErrorKind>,
)
    requires
        (next matches Ok(EventView::Characters(_))) || (next matches Ok(EventView::StartElement { .. })),
    ensures
        ({
            let opened = schema_next(s, Ok(EventView::StartElement { name, attributes: attrs })).0;
            &&& opened.tag == Some(name)
            &&& opened.attributes == Some(attrs)
            &&& schema_next(opened, next).1 matches Advance::Yield(e)
            &&& e.tag == name
            &&& e.attributes == Some(attrs)
            &&& next matches Ok(EventView::Characters(t)) ==> e.value == Some(t)
        }),
{
}

/// The order and occurrence indicators of XML Schema.
#[derive(Clone, Copy, Debug, PartialEq, Eq, Structural)]
pub enum Indicator {
    All,
    Choice,
    Sequence,
    MaxOccurs,
    MinOccurs,
    GroupName,
    AttributeGroupName,
}

/// How strictly wildcard content is validated.
#[derive(Clone, Copy, Debug, PartialEq, Eq, Structural)]
pub enum ProcessContents {
    Lax,
    Skip,
    Strict,
}

/// Whether local names must be namespace-qualified.
#[derive(Clone, Copy, Debug, PartialEq, Eq, Structural)]
pub enum Form {
    Qualified,
    Unqualified,
}

/// The two kinds of type definition.
#[derive(Clone, Copy, Debug, PartialEq, Eq, Structural)]
pub enum Type {
    SimpleType,
    ComplexType,
}

/// Whether an attribute may, must or must not appear.
#[derive(Clone, Copy, Debug, PartialEq, Eq, Structural)]
pub enum Use {
    Optional,
    Prohibited,
    Required,
}

/// The derivations a type can block or finalize.
#[derive(Clone, Copy, Debug, PartialEq, Eq, Structural)]
pub enum Specifier {
    All,
    Extension,
    Restriction,
    List,
    Union,
    Substitution,
}

/// One step of the reader, as a function.
pub open spec fn schema_step() -> spec_fn(SchemaView, Result<EventView, ReadErrorKind>) -> (
    SchemaView,
    Advance<XsdEntryView>,
) {
    |s: SchemaView, e: Result<EventView, ReadErrorKind>| schema_next(s, e)
}

/// Which events the reader takes, as a function.
pub open spec fn schema_ok() -> spec_fn(SchemaView, Result<EventView, ReadErrorKind>) -> bool {
    |s: SchemaView, e: Result<EventView, ReadErrorKind>| schema_accepts(s, e)
}

/// The state after a run of events.
pub open spec fn schema_run(s: SchemaView, evs: Seq<Result<EventView, ReadErrorKind>>) -> SchemaView {
    run_steps(s, evs, schema_step())
}

/// Whether the reader can take every event of a run.
pub open spec fn schema_run_accepted(s: SchemaView, evs: Seq<Result<EventView, ReadErrorKind>>) -> bool {
    steps_accepted(s, evs, schema_step(), schema_ok())
}

/// From the start of a document, the element count is the number of
/// elements left open and the name recorded at each depth from 1 up is the
/// name of the element open at that depth, with nothing at depth 0. While
/// an element is pending it is the innermost open one, and a parent kept
/// for it is the element around it.
pub proof fn law_schema_names_follow_open_elements(evs: Seq<Result<EventView, ReadErrorKind>>)
    requires
        schema_run_accepted(schema_initial(), evs),
    ensures
        ({
            let t = schema_run(schema_initial(), evs);
            let open = open_names(evs);
            &&& t.node == open.len()
            &&& !t.nodes.contains_key(0)
            &&& forall|d: int| 1 <= d <= open.len() ==> #[trigger] t.nodes.contains_key(d as u32)
                && t.nodes[d as u32] == open[d - 1]
            &&& t.state == XsdEvent::On ==> open.len() >= 1 && t.tag == Some(open.last())
            &&& (t.state == XsdEvent::On && t.parent is Some) ==> open.len() >= 2 && t.parent == Some(
                open[open.len() - 2],
            )
        }),
    decreases evs.len(),
{
    if evs.len() > 0 {
        let evs0 = evs.drop_last();
        lemma_steps_accepted_prefix(schema_initial(), evs, schema_step(), schema_ok());
        law_schema_names_follow_open_elements(evs0);
        let prev = schema_run(schema_initial(), evs0);
        let t = schema_run(schema_initial(), evs);
        let open0 = open_names(evs0);
        let open = open_names(evs);
        law_schema_depth(prev, evs.last());
        assert forall|d: int| 1 <= d <= open.len() implies #[trigger] t.nodes.contains_key(d as u32)
            && t.nodes[d as u32] == open[d - 1] by {
            match evs.last() {
                Ok(EventView::StartElement { name, .. }) => {
                    if d < open.len() {
                        assert(prev.nodes.contains_key(d as u32));
                    }
                },
                _ => {
                    assert(prev.nodes.contains_key(d as u32));
                },
            }
        }
        if evs.last() is Ok && evs.last()->Ok_0 is StartElement && open0.len() >= 1 {
            assert(prev.nodes.contains_key(open0.len() as u32));
        }
    }
}

/// From the start of a document, an element handed out while it is
/// pending is the innermost open element. When text hands it out, its
/// parent is the element around it; when a child opening hands it out, the
/// parent given is the element itself.
pub proof fn law_schema_entry_parents(evs: Seq<Result<EventView, ReadErrorKind>>, ev: Result<EventView, ReadErrorKind>)
    requires
        schema_run_accepted(schema_initial(), evs),
        schema_accepts(schema_run(schema_initial(), evs), ev),
        schema_run(schema_initial(), evs).state == XsdEvent::On,
    ensures
        schema_next(schema_run(schema_initial(), evs), ev).1 matches Advance::Yield(e) ==> {
            let open = open_names(evs);
            &&& open.len() >= 1
            &&& e.tag == open.last()
            &&& (ev matches Ok(EventView::Characters(_)) ==> open.len() >= 2 && e.parent == open[open.len() - 2])
            &&& (ev is Ok && ev->Ok_0 is StartElement ==> e.parent == open.last())
        },
{
    let s = schema_run(schema_initial(), evs);
    law_schema_names_follow_open_elements(evs);
    let open = open_names(evs);
    assert(s.nodes.contains_key(open.len() as u32));
}

/// What the reader hands out when fed a list of events from a state: the
/// entries it yields, in order, up to the first end or failure, and that
/// last outcome (`Continue` if the list runs out first); `None` if it
/// meets an event it cannot take before then.
pub open spec fn schema_feed(s: SchemaView, evs: Seq<Result<EventView, ReadErrorKind>>) -> Option<
    (Seq<XsdEntryView>, Advance<()>),
> {
    feed_steps(s, evs, schema_step(), schema_ok())
}

impl EntryReader for SchemaState {
    type Entry = XsdEntry;

    type Input = Result<EventView, ReadErrorKind>;

    open spec fn input(ev: Result<EventView, ReadErrorKind>) -> Result<EventView, ReadErrorKind> {
        ev
    }

    open spec fn initial() -> SchemaView {
        schema_initial()
    }

    open spec fn next() -> spec_fn(SchemaView, Result<EventView, ReadErrorKind>) -> (SchemaView, Advance<XsdEntryView>) {
        schema_step()
    }

    open spec fn takes() -> spec_fn(SchemaView, Result<EventView, ReadErrorKind>) -> bool {
        schema_ok()
    }

    open spec fn failed(x: Result<EventView, ReadErrorKind>) -> bool {
        x is Err
    }

    fn fresh() -> (r: Self) {
        SchemaState::new()
    }

    fn feed(&mut self, ev: Result<XmlEvent, ReadErrorKind>) -> (r: Option<Advance<XsdEntry>>) {
        if self.accepts(&ev) {
            Some(self.step(ev))
        } else {
            None
        }
    }

    proof fn lemma_error_needs_failure(s: SchemaView, x: Result<EventView, ReadErrorKind>) {
    }

    proof fn lemma_failed_input(ev: Result<EventView, ReadErrorKind>) {
    }
}

/// Reads the entries of an XML Schema document: parses its bytes and feeds
/// the events to a fresh reader. Gives the entries handed out before the
/// stream ends and how it ends (with the parser's error, its position and
/// its message where it fails); `None` where the reader meets an event it
/// cannot take.
pub fn schema_entries(doc: &[u8]) -> (r: Option<(Vec<XsdEntry>, StreamEnd)>)
    ensures
        match r {
            Some((es, end)) => schema_feed(schema_initial(), xml_events(doc@)) == Some(
                (entry_views(es@), end_advance(end)),
            ) && failure_matches(
                end,
                xml_failure_position(doc@).0,
                xml_failure_position(doc@).1,
                xml_failure_message(doc@),
            ),
            None => schema_feed(schema_initial(), xml_events(doc@)) is None,
        },
{
    proof {
        assert(inputs::<SchemaState>(xml_events(doc@)) == xml_events(doc@));
    }
    read_entries::<SchemaState>(doc)
}

/// Whether an element has opened since the last text, so that its tag is
/// still pending.
pub open spec fn tag_kept(evs: Seq<Result<EventView, ReadErrorKind>>) -> bool
    decreases evs.len(),
{
    if evs.len() == 0 {
        false
    } else {
        match evs.last() {
            Ok(EventView::StartElement { .. }) => true,
            Ok(EventView::Characters(_)) => false,
            _ => tag_kept(evs.drop_last()),
        }
    }
}

/// Whether the reader keeps a parent for the pending element: the last
/// element opened since the last text opened inside another element while
/// no element was pending.
pub open spec fn parent_kept(evs: Seq<Result<EventView, ReadErrorKind>>) -> bool
    decreases evs.len(),
{
    if evs.len() == 0 {
        false
    } else {
        let before = evs.drop_last();
        match evs.last() {
            Ok(EventView::StartElement { .. }) => !opens_pending(before) && open_names(before).len() >= 1,
            Ok(EventView::Characters(_)) => false,
            _ => parent_kept(before),
        }
    }
}

/// Whether every text comes where an element has opened since the last
/// text, and the last such element opened inside another one while no
/// element was pending.
pub open spec fn text_has_parent(evs: Seq<Result<EventView, ReadErrorKind>>) -> bool {
    forall|i: int|
        0 <= i < evs.len() && (#[trigger] evs[i] matches Ok(EventView::Characters(_))) ==> tag_kept(
            evs.take(i),
        ) && parent_kept(evs.take(i))
}

/// What a document must meet for the reader to take all of it: every
/// closing element closes an open one, every text has a pending element
/// with a kept parent, and no element opens while `u32::MAX` are open.
pub open spec fn schema_readable(evs: Seq<Result<EventView, ReadErrorKind>>) -> bool {
    &&& well_nested(evs)
    &&& text_has_parent(evs)
    &&& depth_fits(evs)
}

/// From the start of a document, an element is pending exactly when the
/// last element-level event was an element opening.
pub proof fn law_schema_pending_follows_openings(evs: Seq<Result<EventView, ReadErrorKind>>)
    ensures
        (schema_run(schema_initial(), evs).state == XsdEvent::On) == opens_pending(evs),
    decreases evs.len(),
{
    if evs.len() > 0 {
        law_schema_pending_follows_openings(evs.drop_last());
    }
}

/// From the start of a document, over a run the reader takes, a tag is
/// pending exactly when an element has opened since the last text, and a
/// parent is kept exactly as `parent_kept` says.
pub proof fn law_schema_kept_follows_events(evs: Seq<Result<EventView, ReadErrorKind>>)
    requires
        schema_run_accepted(schema_initial(), evs),
    ensures
        (schema_run(schema_initial(), evs).tag is Some) == tag_kept(evs),
        (schema_run(schema_initial(), evs).parent is Some) == parent_kept(evs),
    decreases evs.len(),
{
    if evs.len() > 0 {
        let evs0 = evs.drop_last();
        lemma_steps_accepted_prefix(schema_initial(), evs, schema_step(), schema_ok());
        law_schema_kept_follows_events(evs0);
        law_schema_names_follow_open_elements(evs0);
        law_schema_pending_follows_openings(evs0);
        let open0 = open_names(evs0);
        if open0.len() >= 1 {
            assert(schema_run(schema_initial(), evs0).nodes.contains_key(open0.len() as u32));
        }
    }
}

/// The conditions hold of every prefix of a run that meets them.
proof fn lemma_schema_readable_prefix(evs: Seq<Result<EventView, ReadErrorKind>>)
    requires
        evs.len() > 0,
        schema_readable(evs),
    ensures
        schema_readable(evs.drop_last()),
{
    let evs0 = evs.drop_last();
    assert forall|i: int|
        0 <= i < evs0.len() && (#[trigger] evs0[i] matches Ok(EventView::EndElement { .. })) implies open_names(
        evs0.take(i),
    ).len() > 0 by {
        assert(evs0.take(i) == evs.take(i));
        assert(evs0[i] == evs[i]);
    }
    assert forall|i: int|
        0 <= i < evs0.len() && (#[trigger] evs0[i] matches Ok(EventView::Characters(_))) implies tag_kept(
        evs0.take(i),
    ) && parent_kept(evs0.take(i)) by {
        assert(evs0.take(i) == evs.take(i));
        assert(evs0[i] == evs[i]);
    }
    assert forall|i: int|
        0 <= i < evs0.len() && (#[trigger] evs0[i] matches Ok(EventView::StartElement { .. })) implies open_names(
        evs0.take(i),
    ).len() < u32::MAX by {
        assert(evs0.take(i) == evs.take(i));
        assert(evs0[i] == evs[i]);
    }
}

/// From the start of a document, the reader takes every event of a
/// document that meets the conditions: every closing element closes an
/// open one, every text comes where an element has opened since the last
/// text and the last such element opened inside another while none was
/// pending, and no element opens while `u32::MAX` are open.
pub proof fn law_schema_takes_well_formed_documents(evs: Seq<Result<EventView, ReadErrorKind>>)
    requires
        schema_readable(evs),
    ensures
        schema_run_accepted(schema_initial(), evs),
    decreases evs.len(),
{
    if evs.len() > 0 {
        let n = evs.len() - 1;
        let evs0 = evs.drop_last();
        lemma_schema_readable_prefix(evs);
        law_schema_takes_well_formed_documents(evs0);
        law_schema_names_follow_open_elements(evs0);
        law_schema_pending_follows_openings(evs0);
        law_schema_kept_follows_events(evs0);
        let s = schema_run(schema_initial(), evs0);
        let open0 = open_names(evs0);
        let ev = evs.last();
        assert(evs.take(n) == evs0);
        assert(ev == evs[n]);
        if open0.len() >= 1 {
            assert(s.nodes.contains_key(open0.len() as u32));
        }
        assert(schema_accepts(s, ev));
        lemma_steps_accepted_extend(schema_initial(), evs, schema_step(), schema_ok());
    }
}

/// A reader that takes every event of a run hands out a result for it.
pub proof fn law_schema_feed_defined(s: SchemaView, evs: Seq<Result<EventView, ReadErrorKind>>)
    requires
        schema_run_accepted(s, evs),
    ensures
        schema_feed(s, evs) is Some,
{
    lemma_feed_steps_defined(s, evs, schema_step(), schema_ok());
}

/// An XML Schema document whose events meet the conditions above is read
/// without any event being refused.
pub proof fn law_schema_reads_well_formed_documents(doc: Seq<u8>)
    requires
        schema_readable(xml_events(doc)),
    ensures
        schema_feed(schema_initial(), xml_events(doc)) is Some,
{
    law_schema_takes_well_formed_documents(xml_events(doc));
    law_schema_feed_defined(schema_initial(), xml_events(doc));
}

/// From the start of a document, an entry comes out at an event exactly
/// when the event is text, or an element opening while the last
/// element-level event before it was an element opening: an element is
/// reported at most once after it opens, at its text or its first child,
/// in the order the elements open.
pub proof fn law_schema_report_positions(evs: Seq<Result<EventView, ReadErrorKind>>, i: int)
    requires
        0 <= i < evs.len(),
    ensures
        (schema_next(schema_run(schema_initial(), evs.take(i)), evs[i]).1 is Yield) == ((evs[i] matches Ok(
            EventView::Characters(_),
        )) || ((evs[i] matches Ok(EventView::StartElement { .. })) && opens_pending(evs.take(i)))),
{
    law_schema_pending_follows_openings(evs.take(i));
}

}
