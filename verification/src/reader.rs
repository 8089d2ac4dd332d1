use std::collections::HashMap;
use vstd::prelude::*;
use crate::document::{xml_events, xml_failure_message, xml_failure_position};
use crate::events::{
    end_advance, failure_matches, open_names, well_nested, depth_fits, opt_attrs, opt_chars, read_view, StreamEnd, to_lowercase, unicode_lowercase, Advance, EventView,
    ReadErrorKind, XmlAttribute, XmlEvent,
};
use crate::stream::{
    entry_views, feed_steps, inputs, lemma_feed_steps_defined, read_entries, read_feed, run_steps, steps_accepted, EntryReader,
};
use crate::text::str_eq;

verus! {

/// The part of a PIES document that the reader is in.
#[derive(Clone, Copy, Debug, PartialEq, Eq, Structural)]
pub enum Segment {
    Off,
    Header,
    Item,
    Mkt,
    Price,
    Trailer,
}

/// One element of a PIES document, handed out when the element closes.
#[derive(Clone, Debug, PartialEq, Eq)]
pub struct PiesEntry {
    pub tag: String,
    pub item_num: Option<u32>,
    pub parent: String,
    pub segment: String,
    pub attributes: Option<Vec<XmlAttribute>>,
    pub value: Option<String>,
}

/// The contents of a `PiesEntry`.
pub struct PiesEntryView {
    pub tag: Seq<char>,
    pub item_num: Option<u32>,
    pub parent: Seq<char>,
    pub segment: Seq<char>,
    pub attributes: Option<Seq<XmlAttribute>>,
    pub value: Option<Seq<char>>,
}

impl View for PiesEntry {
    type V = PiesEntryView;

    open spec fn view(&self) -> PiesEntryView {
        PiesEntryView {
            tag: self.tag@,
            item_num: self.item_num,
            parent: self.parent@,
            segment: self.segment@,
            attributes: opt_attrs(self.attributes),
            value: opt_chars(self.value),
        }
    }
}

/// The state of a reader that turns the events of a PIES document into
/// entries.
pub struct PiesState {
    depth: u32,
    nodes: HashMap<u32, String>,
    item_num: u32,
    tag: Option<String>,
    segment: Option<String>,
    attributes: Option<Vec<XmlAttribute>>,
    content: Option<String>,
    p_state: Segment,
}

/// The contents of a `PiesState`.
pub struct PiesView {
    /// How many elements are open.
    pub depth: u32,
    /// The name of the element last opened at each depth.
    pub nodes: Map<u32, Seq<char>>,
    /// How many `item` elements have been opened in the items segment.
    pub item_num: u32,
    pub tag: Option<Seq<char>>,
    pub segment: Option<Seq<char>>,
    pub attributes: Option<Seq<XmlAttribute>>,
    pub content: Option<Seq<char>>,
    pub p_state: Segment,
}

impl View for PiesState {
    type V = PiesView;

    closed spec fn view(&self) -> PiesView {
        PiesView {
            depth: self.depth,
            nodes: self.nodes@.map_values(|v: String| v@),
            item_num: self.item_num,
            tag: opt_chars(self.tag),
            segment: opt_chars(self.segment),
            attributes: opt_attrs(self.attributes),
            content: opt_chars(self.content),
            p_state: self.p_state,
        }
    }
}

/// The state before any event.
pub open spec fn pies_initial() -> PiesView {
    PiesView {
        depth: 0,
        nodes: Map::empty(),
        item_num: 0,
        tag: None,
        segment: None,
        attributes: None,
        content: None,
        p_state: Segment::Off,
    }
}

/// Whether an event is the start of an element whose name, lowercased, is
/// `item`.
pub open spec fn starts_item(ev: Result<EventView, ReadErrorKind>) -> bool {
    match ev {
        Ok(EventView::StartElement { name, .. }) => unicode_lowercase(name) == "item"@,
        _ => false,
    }
}

/// The events on which the reader can go on: it cannot count an element
/// past `u32::MAX`, close an element when none is open, or close one
/// inside a segment without knowing the parent element and the segment.
pub open spec fn pies_accepts(s: PiesView, ev: Result<EventView, ReadErrorKind>, is_item: bool) -> bool {
    match ev {
        Ok(EventView::StartElement { .. }) => {
            &&& s.depth < u32::MAX
            &&& (s.p_state == Segment::Item && is_item) ==> s.item_num < u32::MAX
        },
        Ok(EventView::EndElement { .. }) => {
            &&& s.depth > 0
            &&& (s.p_state != Segment::Off && s.depth - 1 >= 2) ==> {
                &&& s.nodes.contains_key((s.depth - 1) as u32)
                &&& s.segment is Some
            }
        },
        _ => true,
    }
}

/// Where an element opened in a given segment moves the reader: a start
/// element named `marker` moves it on to `next`; any other records the
/// element as pending in segment `label`.
pub open spec fn pies_open_in(
    s: PiesView,
    name: Seq<char>,
    attrs: Seq<XmlAttribute>,
    marker: Seq<char>,
    next: Segment,
    label: Seq<char>,
    keep_attrs: bool,
) -> PiesView {
    if name == marker {
        PiesView { p_state: next, ..s }
    } else {
        PiesView {
            tag: Some(name),
            segment: Some(label),
            attributes: if keep_attrs { Some(attrs) } else { s.attributes },
            ..s
        }
    }
}

/// The state after an element opens (with the depth and the name table
/// already updated).
pub open spec fn pies_open(s: PiesView, name: Seq<char>, attrs: Seq<XmlAttribute>, is_item: bool) -> PiesView {
    match s.p_state {
        Segment::Off => if name == "Header"@ {
            PiesView { p_state: Segment::Header, ..s }
        } else {
            s
        },
        Segment::Header => pies_open_in(s, name, attrs, "PriceSheets"@, Segment::Price, "Header"@, false),
        Segment::Price => pies_open_in(s, name, attrs, "MarketingCopy"@, Segment::Mkt, "Price"@, true),
        Segment::Mkt => pies_open_in(s, name, attrs, "Items"@, Segment::Item, "MarketingCopy"@, true),
        Segment::Item => {
            let counted = PiesView {
                item_num: if is_item { (s.item_num + 1) as u32 } else { s.item_num },
                ..s
            };
            if name == "Trailer"@ {
                PiesView { p_state: Segment::Trailer, segment: Some("Trailer"@), ..counted }
            } else {
                PiesView {
                    tag: Some(name),
                    attributes: Some(attrs),
                    segment: Some("Items"@),
                    ..counted
                }
            }
        },
        Segment::Trailer => PiesView {
            segment: Some("Trailer"@),
            tag: Some(name),
            attributes: Some(attrs),
            ..s
        },
    }
}

/// The state and the outcome after an element closes (with the depth
/// already lowered): below depth 2, or before the header, nothing is handed
/// out; otherwise the pending element is handed out, named after the
/// pending tag or else the closing tag, with the element open at the new
/// depth as its parent.
pub open spec fn pies_close(s: PiesView, name: Seq<char>) -> (PiesView, Advance<PiesEntryView>) {
    if s.p_state == Segment::Off || s.depth < 2 {
        (s, Advance::Continue)
    } else {
        let entry = PiesEntryView {
            tag: match s.tag {
                Some(t) => t,
                None => name,
            },
            item_num: if s.p_state == Segment::Item { Some(s.item_num) } else { None },
            parent: s.nodes[s.depth],
            segment: s.segment.unwrap(),
            attributes: if s.p_state == Segment::Header { None } else { s.attributes },
            value: s.content,
        };
        let after = PiesView {
            tag: None,
            content: None,
            attributes: if s.p_state == Segment::Header { s.attributes } else { None },
            ..s
        };
        (after, Advance::Yield(entry))
    }
}

/// One step of the reader: the state after the event and what it hands out.
pub open spec fn pies_next(s: PiesView, ev: Result<EventView, ReadErrorKind>, is_item: bool) -> (
    PiesView,
    Advance<PiesEntryView>,
) {
    match ev {
        Ok(EventView::StartElement { name, attributes }) => {
            let d = (s.depth + 1) as u32;
            let entered = PiesView { depth: d, nodes: s.nodes.insert(d, name), ..s };
            (pies_open(entered, name, attributes, is_item), Advance::Continue)
        },
        Ok(EventView::EndElement { name }) => {
            let lowered = PiesView { depth: (s.depth - 1) as u32, ..s };
            pies_close(lowered, name)
        },
        Ok(EventView::Characters(text)) => if s.p_state == Segment::Off {
            (s, Advance::Continue)
        } else {
            (PiesView { content: Some(text), ..s }, Advance::Continue)
        },
        Ok(EventView::EndDocument) => (s, Advance::End),
        Ok(_) => (s, Advance::Continue),
        Err(ReadErrorKind::UnexpectedEof) => (s, Advance::End),
        Err(_) => (s, Advance::Error),
    }
}

impl PiesState {
    /// A reader at the start of a document.
    pub fn new() -> (r: Self)
        ensures
            r@ == pies_initial(),
    {
        let r = PiesState {
            depth: 0,
            nodes: HashMap::new(),
            item_num: 0,
            tag: None,
            segment: None,
            attributes: None,
            content: None,
            p_state: Segment::Off,
        };
        assert(r@.nodes =~= Map::empty());
        r
    }

    /// The reader's current segment.
    pub fn segment_state(&self) -> (r: Segment)
        ensures
            r == self@.p_state,
    {
        self.p_state
    }

    /// Opens an element: records its name at the new depth and moves
    /// through the segments.
    fn open(&mut self, local: String, attributes: Vec<XmlAttribute>, is_item: bool)
        requires
            old(self)@.depth < u32::MAX,
            (old(self)@.p_state == Segment::Item && is_item) ==> old(self)@.item_num < u32::MAX,
        ensures
            final(self)@ == pies_next(
                old(self)@,
                Ok(EventView::StartElement { name: local@, attributes: attributes@ }),
                is_item,
            ).0,
    {
        let ghost s0 = self@;
        self.depth = self.depth + 1;
        let copy = local.clone();
        self.nodes.insert(self.depth, copy);
        let ghost entered = PiesView {
            depth: self.depth,
            nodes: s0.nodes.insert(self.depth, local@),
            ..s0
        };
        assert(self@.nodes =~= entered.nodes);
        assert(self@ == entered);
        match self.p_state {
            Segment::Off => {
                if str_eq(local.as_str(), "Header") {
                    self.p_state = Segment::Header;
                }
            },
            Segment::Header => {
                if str_eq(local.as_str(), "PriceSheets") {
                    self.p_state = Segment::Price;
                } else {
                    self.tag = Some(local);
                    self.segment = Some(String::from_str("Header"));
                }
            },
            Segment::Price => {
                if str_eq(local.as_str(), "MarketingCopy") {
                    self.p_state = Segment::Mkt;
                } else {
                    self.tag = Some(local);
                    self.attributes = Some(attributes);
                    self.segment = Some(String::from_str("Price"));
                }
            },
            Segment::Mkt => {
                if str_eq(local.as_str(), "Items") {
                    self.p_state = Segment::Item;
                } else {
                    self.tag = Some(local);
                    self.attributes = Some(attributes);
                    self.segment = Some(String::from_str("MarketingCopy"));
                }
            },
            Segment::Item => {
                if is_item {
                    self.item_num = self.item_num + 1;
                }
                if str_eq(local.as_str(), "Trailer") {
                    self.p_state = Segment::Trailer;
                    self.segment = Some(String::from_str("Trailer"));
                } else {
                    self.tag = Some(local);
                    self.attributes = Some(attributes);
                    self.segment = Some(String::from_str("Items"));
                }
            },
            Segment::Trailer => {
                self.segment = Some(String::from_str("Trailer"));
                self.tag = Some(local);
                self.attributes = Some(attributes);
            },
        }
    }

    /// Closes an element: below depth 2 or before the header nothing comes
    /// out; otherwise the pending element is handed out.
    fn close(&mut self, local: String) -> (r: Advance<PiesEntry>)
        requires
            pies_accepts(
                old(self)@,
                Ok(EventView::EndElement { name: local@ }),
                false,
            ),
        ensures
            (final(self)@, r@) == pies_next(
                old(self)@,
                Ok(EventView::EndElement { name: local@ }),
                false,
            ),
    {
        self.depth = self.depth - 1;
        if self.depth < 2 {
            return Advance::Continue;
        }
        let item_num = match self.p_state {
            Segment::Off => {
                return Advance::Continue;
            },
            Segment::Item => Some(self.item_num),
            _ => None,
        };
        let parent = match self.nodes.get(&self.depth) {
            Some(p) => p.clone(),
            None => String::new(),
        };
        let segment = match &self.segment {
            Some(seg) => seg.clone(),
            None => String::new(),
        };
        let attributes = match self.p_state {
            Segment::Header => None,
            _ => self.attributes.take(),
        };
        let tag = match self.tag.take() {
            Some(t) => t,
            None => local,
        };
        let value = self.content.take();
        let out = PiesEntry { tag, item_num, parent, segment, attributes, value };
        Advance::Yield(out)
    }

    /// Feeds one parser event to the reader, with `is_item` telling whether
    /// the element it opens, if any, counts as an `item`.
    pub fn step_with(&mut self, ev: Result<XmlEvent, ReadErrorKind>, is_item: bool) -> (r: Advance<PiesEntry>)
        requires
            pies_accepts(old(self)@, read_view(ev), is_item),
        ensures
            (final(self)@, r@) == pies_next(old(self)@, read_view(ev), is_item),
    {
        match ev {
            Ok(XmlEvent::StartElement { name, attributes }) => {
                self.open(name, attributes, is_item);
                Advance::Continue
            },
            Ok(XmlEvent::EndElement { name }) => self.close(name),
            Ok(XmlEvent::Characters(text)) => {
                match self.p_state {
                    Segment::Off => {},
                    _ => {
                        self.content = Some(text);
                    },
                }
                Advance::Continue
            },
            Ok(XmlEvent::EndDocument) => Advance::End,
            Ok(_) => Advance::Continue,
            Err(ReadErrorKind::UnexpectedEof) => Advance::End,
            Err(_) => Advance::Error,
        }
    }

    /// Whether the element that an event opens counts as an `item`: its
    /// name, lowercased, is `item`.
    fn opens_item(ev: &Result<XmlEvent, ReadErrorKind>) -> (r: bool)
        ensures
            r == starts_item(read_view(*ev)),
    {
        match ev {
            Ok(XmlEvent::StartElement { name, .. }) => {
                let lowered = to_lowercase(name.as_str());
                str_eq(lowered.as_str(), "item")
            },
            _ => false,
        }
    }

    /// Feeds one parser event to the reader.
    pub fn step(&mut self, ev: Result<XmlEvent, ReadErrorKind>) -> (r: Advance<PiesEntry>)
        requires
            pies_accepts(old(self)@, read_view(ev), starts_item(read_view(ev))),
        ensures
            (final(self)@, r@) == pies_next(old(self)@, read_view(ev), starts_item(read_view(ev))),
    {
        let is_item = Self::opens_item(&ev);
        self.step_with(ev, is_item)
    }

    /// Feeds one parser event to the reader if it can take it; gives `None`,
    /// with the reader unchanged, where it cannot.
    pub fn try_step(&mut self, ev: Result<XmlEvent, ReadErrorKind>) -> (r: Option<Advance<PiesEntry>>)
        ensures
            pies_accepts(old(self)@, read_view(ev), starts_item(read_view(ev))) ==> (r matches Some(a)
                && (final(self)@, a@) == pies_next(old(self)@, read_view(ev), starts_item(read_view(ev)))),
            !pies_accepts(old(self)@, read_view(ev), starts_item(read_view(ev))) ==> (r is None
                && final(self)@ == old(self)@),
    {
        let is_item = Self::opens_item(&ev);
        if self.accepts(&ev, is_item) {
            Some(self.step(ev))
        } else {
            None
        }
    }

    /// Whether the reader can take an event.
    pub fn accepts(&self, ev: &Result<XmlEvent, ReadErrorKind>, is_item: bool) -> (r: bool)
        ensures
            r == pies_accepts(self@, read_view(*ev), is_item),
    {
        match ev {
            Ok(XmlEvent::StartElement { .. }) => {
                self.depth < u32::MAX && !(matches!(self.p_state, Segment::Item) && is_item
                    && self.item_num == u32::MAX)
            },
            Ok(XmlEvent::EndElement { .. }) => {
                if self.depth == 0 {
                    false
                } else if matches!(self.p_state, Segment::Off) || self.depth - 1 < 2 {
                    true
                } else {
                    self.nodes.contains_key(&(self.depth - 1)) && self.segment.is_some()
                }
            },
            _ => true,
        }
    }
}

/// The order in which a PIES document lays out its segments.
pub open spec fn segment_rank(p: Segment) -> int {
    match p {
        Segment::Off => 0,
        Segment::Header => 1,
        Segment::Price => 2,
        Segment::Mkt => 3,
        Segment::Item => 4,
        Segment::Trailer => 5,
    }
}

/// The element name that moves the reader out of a segment.
pub open spec fn segment_marker(p: Segment) -> Seq<char> {
    match p {
        Segment::Off => "Header"@,
        Segment::Header => "PriceSheets"@,
        Segment::Price => "MarketingCopy"@,
        Segment::Mkt => "Items"@,
        Segment::Item => "Trailer"@,
        Segment::Trailer => Seq::empty(),
    }
}

/// The events of a run, each paired with whether the element it opens
/// counts as an `item`.
pub open spec fn flagged(evs: Seq<Result<EventView, ReadErrorKind>>, items: Seq<bool>) -> Seq<
    (Result<EventView, ReadErrorKind>, bool),
> {
    Seq::new(evs.len(), |i: int| (evs[i], items[i]))
}

/// One step of the reader on a flagged event, as a function.
pub open spec fn pies_step() -> spec_fn(PiesView, (Result<EventView, ReadErrorKind>, bool)) -> (
    PiesView,
    Advance<PiesEntryView>,
) {
    |s: PiesView, x: (Result<EventView, ReadErrorKind>, bool)| pies_next(s, x.0, x.1)
}

/// Which flagged events the reader takes, as a function.
pub open spec fn pies_ok() -> spec_fn(PiesView, (Result<EventView, ReadErrorKind>, bool)) -> bool {
    |s: PiesView, x: (Result<EventView, ReadErrorKind>, bool)| pies_accepts(s, x.0, x.1)
}

/// The state after a run of events, each paired with whether the element
/// it opens counts as an `item`.
pub open spec fn pies_run(s: PiesView, evs: Seq<Result<EventView, ReadErrorKind>>, items: Seq<bool>) -> PiesView {
    run_steps(s, flagged(evs, items), pies_step())
}

/// A run goes through the events before the last one, then through the
/// last one.
proof fn lemma_pies_run_last(s: PiesView, evs: Seq<Result<EventView, ReadErrorKind>>, items: Seq<bool>)
    requires
        items.len() == evs.len(),
        evs.len() > 0,
    ensures
        pies_run(s, evs, items) == pies_next(
            pies_run(s, evs.drop_last(), items.drop_last()),
            evs.last(),
            items.last(),
        ).0,
{
    assert(flagged(evs, items).drop_last() == flagged(evs.drop_last(), items.drop_last()));
    assert(flagged(evs, items).last() == (evs.last(), items.last()));
}

/// Whether the reader can take every event of a run.
pub open spec fn pies_run_accepted(
    s: PiesView,
    evs: Seq<Result<EventView, ReadErrorKind>>,
    items: Seq<bool>,
) -> bool {
    forall|i: int|
        0 <= i < evs.len() ==> #[trigger] pies_accepts(
            pies_run(s, evs.take(i), items.take(i)),
            evs[i],
            items[i],
        )
}

/// The depth counts open elements: an element that opens adds one, one
/// that closes takes one away, any other event leaves it.
pub proof fn law_depth_counts_open_elements(s: PiesView, ev: Result<EventView, ReadErrorKind>, is_item: bool)
    requires
        pies_accepts(s, ev, is_item),
    ensures
        ({
            let t = pies_next(s, ev, is_item).0;
            match ev {
                Ok(EventView::StartElement { .. }) => t.depth == s.depth + 1,
                Ok(EventView::EndElement { .. }) => t.depth == s.depth - 1,
                _ => t.depth == s.depth,
            }
        }),
{
}

/// An element that opens is recorded under its depth; the names recorded
/// at other depths stay, and only an opening element changes the table.
pub proof fn law_opened_name_recorded(s: PiesView, ev: Result<EventView, ReadErrorKind>, is_item: bool)
    requires
        pies_accepts(s, ev, is_item),
    ensures
        ({
            let t = pies_next(s, ev, is_item).0;
            match ev {
                Ok(EventView::StartElement { name, .. }) => t.nodes == s.nodes.insert(
                    (s.depth + 1) as u32,
                    name,
                ),
                _ => t.nodes == s.nodes,
            }
        }),
{
}

/// The reader never goes back to an earlier segment: it stays, or moves to
/// the next one exactly when an element named after that segment's marker
/// opens.
pub proof fn law_segments_advance(s: PiesView, ev: Result<EventView, ReadErrorKind>, is_item: bool)
    requires
        pies_accepts(s, ev, is_item),
    ensures
        ({
            let t = pies_next(s, ev, is_item).0;
            &&& t.p_state == s.p_state || segment_rank(t.p_state) == segment_rank(s.p_state) + 1
            &&& (t.p_state != s.p_state) == (s.p_state != Segment::Trailer
                && (ev matches Ok(EventView::StartElement { name, .. }) && name == segment_marker(s.p_state)))
        }),
{
}

/// Only a closing element past the top two levels, inside the document's
/// segments, hands an entry out. The entry's parent is the element open
/// around it, it carries an item number exactly in the items segment (the
/// count so far), header entries carry no attributes, and the pending tag
/// and text are cleared.
pub proof fn law_entries_come_from_closing_elements(
    s: PiesView,
    ev: Result<EventView, ReadErrorKind>,
    is_item: bool,
)
    requires
        pies_accepts(s, ev, is_item),
    ensures
        ({
            let (t, r) = pies_next(s, ev, is_item);
            r matches Advance::Yield(e) ==> {
                &&& (ev matches Ok(EventView::EndElement { name }) && e.tag == (match s.tag {
                    Some(p) => p,
                    None => name,
                }))
                &&& s.p_state != Segment::Off
                &&& t.depth >= 2
                &&& s.nodes.contains_key(t.depth) && e.parent == s.nodes[t.depth]
                &&& (e.item_num is Some <==> s.p_state == Segment::Item)
                &&& e.item_num is Some ==> e.item_num == Some(s.item_num)
                &&& s.p_state == Segment::Header ==> e.attributes is None
                &&& e.value == s.content
                &&& t.tag is None && t.content is None
            }
        }),
{
}

/// The item count goes up by one exactly when an element that counts as an
/// `item` opens in the items segment.
pub proof fn law_item_count(s: PiesView, ev: Result<EventView, ReadErrorKind>, is_item: bool)
    requires
        pies_accepts(s, ev, is_item),
    ensures
        pies_next(s, ev, is_item).0.item_num == s.item_num + (if s.p_state == Segment::Item
            && ev is Ok && ev->Ok_0 is StartElement && is_item {
            1int
        } else {
            0int
        }),
{
}

/// The end of the document, or of the input, ends the stream; any other
/// parser failure is handed out as an error. Neither changes the reader.
pub proof fn law_end_and_failure(s: PiesView, ev: Result<EventView, ReadErrorKind>, is_item: bool)
    ensures
        (ev matches Ok(EventView::EndDocument) || ev == Err::<EventView, ReadErrorKind>(
            ReadErrorKind::UnexpectedEof,
        )) ==> pies_next(s, ev, is_item) == (s, Advance::<PiesEntryView>::End),
        (ev is Err && ev != Err::<EventView, ReadErrorKind>(ReadErrorKind::UnexpectedEof))
            ==> pies_next(s, ev, is_item) == (s, Advance::<PiesEntryView>::Error),
{
}

/// An event counts as opening an `item` exactly when it opens an element
/// whose name, lowercased, is `item`: `Item` and `ITEM` count,
/// `ItemLevelGTIN` and `PartNumber` do not.
pub proof fn law_items_are_elements_named_item(ev: Result<EventView, ReadErrorKind>)
    ensures
        starts_item(ev) == (ev matches Ok(EventView::StartElement { name, .. }) && unicode_lowercase(name)
            == "item"@),
{
}

/// In the items segment, an opening element raises the item count by one
/// if its name, lowercased, is `item`, and leaves it otherwise; outside
/// the items segment no opening element changes it.
pub proof fn law_item_count_counts_item_elements(s: PiesView, name: Seq<char>, attrs: Seq<XmlAttribute>)
    requires
        s.item_num < u32::MAX,
    ensures
        ({
            let ev = Ok::<EventView, ReadErrorKind>(EventView::StartElement { name, attributes: attrs });
            pies_next(s, ev, starts_item(ev)).0.item_num == if s.p_state == Segment::Item && unicode_lowercase(
                name,
            ) == "item"@ {
                s.item_num + 1
            } else {
                s.item_num as int
            }
        }),
{
}

/// Past the header marker, an element that opens (other than the marker
/// that moves the reader to the next segment) at depth 3 or more and
/// closes with nothing in between is handed out as an entry: under its own
/// name, with the element around it as its parent, with the attributes it
/// opened with (none are given in the header segment), with the item count
/// in the items segment, and labelled with the segment it was read in:
/// `Header`, `Price`, `MarketingCopy`, `Items` or `Trailer`.
pub proof fn law_leaf_element_entry(
    s: PiesView,
    name: Seq<char>,
    attrs: Seq<XmlAttribute>,
    is_item: bool,
    closing_is_item: bool,
)
    requires
        s.p_state != Segment::Off,
        2 <= s.depth < u32::MAX,
        s.p_state == Segment::Item && is_item ==> s.item_num < u32::MAX,
        name != segment_marker(s.p_state),
    ensures
        ({
            let opened = pies_next(s, Ok(EventView::StartElement { name, attributes: attrs }), is_item).0;
            let closed = pies_next(opened, Ok(EventView::EndElement { name }), closing_is_item);
            &&& closed.1 matches Advance::Yield(e)
            &&& e.tag == name
            &&& e.parent == s.nodes[s.depth]
            &&& e.attributes == if s.p_state == Segment::Header {
                None
            } else {
                Some(attrs)
            }
            &&& e.item_num == if s.p_state == Segment::Item {
                Some((if is_item { s.item_num + 1 } else { s.item_num as int }) as u32)
            } else {
                None
            }
            &&& e.segment == match s.p_state {
                Segment::Header => "Header"@,
                Segment::Price => "Price"@,
                Segment::Mkt => "MarketingCopy"@,
                Segment::Item => "Items"@,
                _ => "Trailer"@,
            }
        }),
{
    let d = (s.depth + 1) as u32;
    assert(s.nodes.insert(d, name)[s.depth] == s.nodes[s.depth]);
}

/// Once an entry is handed out outside the header, the element that closes
/// next, if deep enough to be handed out, is handed out under its own name,
/// with no attributes and no value, in the same segment with the same item
/// number: what an inner element held does not pass to the one around it.
pub proof fn law_enclosing_element_entry(
    s: PiesView,
    inner: Seq<char>,
    outer: Seq<char>,
    is_item: bool,
    outer_is_item: bool,
)
    requires
        s.p_state != Segment::Header,
        s.depth >= 1,
        pies_next(s, Ok(EventView::EndElement { name: inner }), is_item).1 is Yield,
    ensures
        ({
            let (t, first) = pies_next(s, Ok(EventView::EndElement { name: inner }), is_item);
            let second = pies_next(t, Ok(EventView::EndElement { name: outer }), outer_is_item).1;
            t.depth >= 3 ==> {
                &&& second matches Advance::Yield(e)
                &&& e.tag == outer
                &&& e.attributes is None
                &&& e.value is None
                &&& first matches Advance::Yield(f) && e.segment == f.segment && e.item_num == f.item_num
            }
        }),
{
}

/// Over any run of events the reader takes, the segment never goes back and
/// the item count never goes down.
pub proof fn law_run_is_monotone(s: PiesView, evs: Seq<Result<EventView, ReadErrorKind>>, items: Seq<bool>)
    requires
        items.len() == evs.len(),
        pies_run_accepted(s, evs, items),
    ensures
        segment_rank(pies_run(s, evs, items).p_state) >= segment_rank(s.p_state),
        pies_run(s, evs, items).item_num >= s.item_num,
    decreases evs.len(),
{
    if evs.len() > 0 {
        let evs0 = evs.drop_last();
        let items0 = items.drop_last();
        lemma_run_accepted_prefix(s, evs, items);
        law_run_is_monotone(s, evs0, items0);
        let prev = pies_run(s, evs0, items0);
        law_segments_advance(prev, evs.last(), items.last());
        law_item_count(prev, evs.last(), items.last());
    }
}

/// A run the reader takes has every prefix taken too, and its last event is
/// taken in the state the prefix leads to.
proof fn lemma_run_accepted_prefix(s: PiesView, evs: Seq<Result<EventView, ReadErrorKind>>, items: Seq<bool>)
    requires
        evs.len() > 0,
        items.len() == evs.len(),
        pies_run_accepted(s, evs, items),
    ensures
        pies_run_accepted(s, evs.drop_last(), items.drop_last()),
        pies_accepts(pies_run(s, evs.drop_last(), items.drop_last()), evs.last(), items.last()),
        pies_run(s, evs, items) == pies_next(
            pies_run(s, evs.drop_last(), items.drop_last()),
            evs.last(),
            items.last(),
        ).0,
{
    lemma_pies_run_last(s, evs, items);
    let n = evs.len() - 1;
    let evs0 = evs.drop_last();
    let items0 = items.drop_last();
    assert forall|i: int| 0 <= i < evs0.len() implies #[trigger] pies_accepts(
        pies_run(s, evs0.take(i), items0.take(i)),
        evs0[i],
        items0[i],
    ) by {
        assert(evs0.take(i) == evs.take(i));
        assert(items0.take(i) == items.take(i));
        assert(pies_accepts(pies_run(s, evs.take(i), items.take(i)), evs[i], items[i]));
    }
    assert(evs.take(n) == evs0);
    assert(items.take(n) == items0);
    assert(pies_accepts(pies_run(s, evs.take(n), items.take(n)), evs[n], items[n]));
}

/// From the start of a document, the depth is the number of elements left
/// open, and the name recorded at each depth from 1 up is the name of the
/// element open at that depth.
pub proof fn law_names_follow_open_elements(evs: Seq<Result<EventView, ReadErrorKind>>, items: Seq<bool>)
    requires
        items.len() == evs.len(),
        pies_run_accepted(pies_initial(), evs, items),
    ensures
        ({
            let t = pies_run(pies_initial(), evs, items);
            let open = open_names(evs);
            &&& t.depth == open.len()
            &&& forall|d: int| 1 <= d <= open.len() ==> #[trigger] t.nodes.contains_key(d as u32)
                && t.nodes[d as u32] == open[d - 1]
        }),
    decreases evs.len(),
{
    if evs.len() > 0 {
        let evs0 = evs.drop_last();
        let items0 = items.drop_last();
        lemma_run_accepted_prefix(pies_initial(), evs, items);
        law_names_follow_open_elements(evs0, items0);
        let prev = pies_run(pies_initial(), evs0, items0);
        let t = pies_run(pies_initial(), evs, items);
        let open0 = open_names(evs0);
        let open = open_names(evs);
        law_depth_counts_open_elements(prev, evs.last(), items.last());
        law_opened_name_recorded(prev, evs.last(), items.last());
        assert forall|d: int| 1 <= d <= open.len() implies #[trigger] t.nodes.contains_key(d as u32)
            && t.nodes[d as u32] == open[d - 1] by {
            match evs.last() {
                Ok(EventView::StartElement { name, .. }) => {
                    if d < open.len() {
                        assert(prev.nodes.contains_key(d as u32));
                    }
                },
                _ => {
                    assert(prev.nodes.contains_key(d as u32));
                },
            }
        }
    }
}

/// From the start of a document, an entry handed out when an element
/// closes names as its parent the element around it, the innermost one
/// still open.
pub proof fn law_parent_is_enclosing_element(
    evs: Seq<Result<EventView, ReadErrorKind>>,
    items: Seq<bool>,
    ev: Result<EventView, ReadErrorKind>,
    is_item: bool,
)
    requires
        items.len() == evs.len(),
        pies_run_accepted(pies_initial(), evs, items),
        pies_accepts(pies_run(pies_initial(), evs, items), ev, is_item),
    ensures
        pies_next(pies_run(pies_initial(), evs, items), ev, is_item).1 matches Advance::Yield(e)
            ==> open_names(evs.push(ev)).len() >= 2 && e.parent == open_names(evs.push(ev)).last(),
{
    let s = pies_run(pies_initial(), evs, items);
    law_names_follow_open_elements(evs, items);
    law_entries_come_from_closing_elements(s, ev, is_item);
    let all = evs.push(ev);
    assert(all.drop_last() == evs);
    assert(all.last() == ev);
    let open = open_names(evs);
    if pies_next(s, ev, is_item).1 is Yield {
        let d = s.depth - 1;
        assert(1 <= d <= open.len());
        assert(s.nodes[d as u32] == open[d - 1]);
    }
}

/// For each event, whether the element it opens counts as an `item`.
pub open spec fn item_flags(evs: Seq<Result<EventView, ReadErrorKind>>) -> Seq<bool> {
    evs.map_values(|e: Result<EventView, ReadErrorKind>| starts_item(e))
}

/// What the reader hands out when fed a list of events from a state: the
/// entries it yields, in order, up to the first end or failure, and that
/// last outcome (`Continue` if the list runs out first); `None` if it
/// meets an event it cannot take before then.
pub open spec fn pies_feed(s: PiesView, evs: Seq<Result<EventView, ReadErrorKind>>, items: Seq<bool>) -> Option<
    (Seq<PiesEntryView>, Advance<()>),
> {
    feed_steps(s, flagged(evs, items), pies_step(), pies_ok())
}

impl EntryReader for PiesState {
    type Entry = PiesEntry;

    type Input = (Result<EventView, ReadErrorKind>, bool);

    open spec fn input(ev: Result<EventView, ReadErrorKind>) -> (Result<EventView, ReadErrorKind>, bool) {
        (ev, starts_item(ev))
    }

    open spec fn initial() -> PiesView {
        pies_initial()
    }

    open spec fn next() -> spec_fn(PiesView, (Result<EventView, ReadErrorKind>, bool)) -> (
        PiesView,
        Advance<PiesEntryView>,
    ) {
        pies_step()
    }

    open spec fn takes() -> spec_fn(PiesView, (Result<EventView, ReadErrorKind>, bool)) -> bool {
        pies_ok()
    }

    open spec fn failed(x: (Result<EventView, ReadErrorKind>, bool)) -> bool {
        x.0 is Err
    }

    fn fresh() -> (r: Self) {
        PiesState::new()
    }

    fn feed(&mut self, ev: Result<XmlEvent, ReadErrorKind>) -> (r: Option<Advance<PiesEntry>>) {
        self.try_step(ev)
    }

    proof fn lemma_error_needs_failure(s: PiesView, x: (Result<EventView, ReadErrorKind>, bool)) {
        law_end_and_failure(s, x.0, x.1);
    }

    proof fn lemma_failed_input(ev: Result<EventView, ReadErrorKind>) {
    }
}

/// A fresh reader fed parser results hands out what `pies_feed` says, each
/// result flagged by whether the element it opens counts as an `item`.
proof fn lemma_pies_read_feed(evs: Seq<Result<EventView, ReadErrorKind>>)
    ensures
        read_feed::<PiesState>(evs) == pies_feed(pies_initial(), evs, item_flags(evs)),
{
    assert(inputs::<PiesState>(evs) == flagged(evs, item_flags(evs)));
}

/// Reads the entries of a PIES document: parses its bytes and feeds the
/// events to a fresh reader. Gives the entries handed out before the stream
/// ends and how it ends (with the parser's error, its position and its
/// message where it fails); `None` where the reader meets an event it
/// cannot take.
pub fn pies_entries(doc: &[u8]) -> (r: Option<(Vec<PiesEntry>, StreamEnd)>)
    ensures
        match r {
            Some((es, end)) => pies_feed(
                pies_initial(),
                xml_events(doc@),
                item_flags(xml_events(doc@)),
            ) == Some((entry_views(es@), end_advance(end))) && failure_matches(
                end,
                xml_failure_position(doc@).0,
                xml_failure_position(doc@).1,
                xml_failure_message(doc@),
            ),
            None => pies_feed(pies_initial(), xml_events(doc@), item_flags(xml_events(doc@))) is None,
        },
{
    proof {
        lemma_pies_read_feed(xml_events(doc@));
    }
    read_entries::<PiesState>(doc)
}

/// The element names that move the reader from one segment to the next
/// (besides `Trailer`).
pub open spec fn is_segment_marker(name: Seq<char>) -> bool {
    name == "Header"@ || name == "PriceSheets"@ || name == "MarketingCopy"@ || name == "Items"@
}

/// Whether every element named after a segment marker opens at depth 1 or
/// 2.
pub open spec fn markers_shallow(evs: Seq<Result<EventView, ReadErrorKind>>) -> bool {
    forall|i: int|
        0 <= i < evs.len() && (#[trigger] evs[i] matches Ok(EventView::StartElement { name, .. })
            && is_segment_marker(name)) ==> open_names(evs.take(i)).len() < 2
}

/// How many elements counting as items open in the items segment over a
/// run from the start of a document: what the reader's item count becomes.
pub open spec fn items_opened(evs: Seq<Result<EventView, ReadErrorKind>>, items: Seq<bool>) -> nat
    decreases evs.len(),
{
    if evs.len() == 0 {
        0
    } else {
        items_opened(evs.drop_last(), items.drop_last()) + if (evs.last() matches Ok(
            EventView::StartElement { .. },
        )) && items.last() && pies_run(pies_initial(), evs.drop_last(), items.drop_last()).p_state
            == Segment::Item {
            1nat
        } else {
            0nat
        }
    }
}

/// What a document must meet for the reader to take all of it: every
/// closing element closes an open one, no element named after a segment
/// marker opens deeper than depth 2, no element opens while `u32::MAX` are
/// open, and at most `u32::MAX` elements counting as items open in the
/// items segment.
pub open spec fn pies_readable(evs: Seq<Result<EventView, ReadErrorKind>>, items: Seq<bool>) -> bool {
    &&& items.len() == evs.len()
    &&& well_nested(evs)
    &&& markers_shallow(evs)
    &&& depth_fits(evs)
    &&& items_opened(evs, items) <= u32::MAX
}

/// The conditions hold of every prefix of a run that meets them.
proof fn lemma_pies_readable_prefix(evs: Seq<Result<EventView, ReadErrorKind>>, items: Seq<bool>)
    requires
        evs.len() > 0,
        pies_readable(evs, items),
    ensures
        pies_readable(evs.drop_last(), items.drop_last()),
{
    let evs0 = evs.drop_last();
    assert forall|i: int|
        0 <= i < evs0.len() && (#[trigger] evs0[i] matches Ok(EventView::EndElement { .. })) implies open_names(
        evs0.take(i),
    ).len() > 0 by {
        assert(evs0.take(i) == evs.take(i));
        assert(evs0[i] == evs[i]);
    }
    assert forall|i: int|
        0 <= i < evs0.len() && (#[trigger] evs0[i] matches Ok(EventView::StartElement { name, .. })
            && is_segment_marker(name)) implies open_names(evs0.take(i)).len() < 2 by {
        assert(evs0.take(i) == evs.take(i));
        assert(evs0[i] == evs[i]);
    }
    assert forall|i: int|
        0 <= i < evs0.len() && (#[trigger] evs0[i] matches Ok(EventView::StartElement { .. })) implies open_names(
        evs0.take(i),
    ).len() < u32::MAX by {
        assert(evs0.take(i) == evs.take(i));
        assert(evs0[i] == evs[i]);
    }
}

/// What the reader keeps while it reads a document that meets the
/// conditions: deep inside the segments, the segment name set is the label
/// of the segment the reader is in.
pub open spec fn pies_segment_kept(t: PiesView, open_len: int) -> bool {
    (t.p_state != Segment::Off && open_len >= 3) ==> t.segment == Some(
        match t.p_state {
            Segment::Header => "Header"@,
            Segment::Price => "Price"@,
            Segment::Mkt => "MarketingCopy"@,
            Segment::Item => "Items"@,
            _ => "Trailer"@,
        },
    )
}

/// One step keeps the segment name set deep inside the segments, given
/// that segment markers open no deeper than depth 2.
proof fn lemma_pies_segment_step(s: PiesView, ev: Result<EventView, ReadErrorKind>, is_item: bool, d0: int)
    requires
        pies_accepts(s, ev, is_item),
        pies_segment_kept(s, d0),
        s.depth == d0,
        ev matches Ok(EventView::StartElement { name, .. }) && is_segment_marker(name) ==> d0 < 2,
    ensures
        pies_segment_kept(
            pies_next(s, ev, is_item).0,
            match ev {
                Ok(EventView::StartElement { .. }) => d0 + 1,
                Ok(EventView::EndElement { .. }) => d0 - 1,
                _ => d0,
            },
        ),
{
    let t = pies_next(s, ev, is_item).0;
    match ev {
        Ok(EventView::StartElement { name, .. }) => {
            if s.p_state == Segment::Off && t.p_state != Segment::Off {
                assert(is_segment_marker(name));
            }
            if s.p_state != Segment::Off && d0 == 2 {
                assert(!is_segment_marker(name));
            }
        },
        _ => {},
    }
}

/// The facts that carry the reader through a document that meets the
/// conditions.
proof fn lemma_pies_readable_run(evs: Seq<Result<EventView, ReadErrorKind>>, items: Seq<bool>)
    requires
        pies_readable(evs, items),
    ensures
        pies_run_accepted(pies_initial(), evs, items),
        pies_run(pies_initial(), evs, items).depth == open_names(evs).len(),
        pies_run(pies_initial(), evs, items).item_num == items_opened(evs, items),
        pies_segment_kept(pies_run(pies_initial(), evs, items), open_names(evs).len() as int),
    decreases evs.len(),
{
    if evs.len() > 0 {
        let n = evs.len() - 1;
        let evs0 = evs.drop_last();
        let items0 = items.drop_last();
        lemma_pies_readable_prefix(evs, items);
        lemma_pies_readable_run(evs0, items0);
        lemma_pies_run_last(pies_initial(), evs, items);
        law_names_follow_open_elements(evs0, items0);
        let s = pies_run(pies_initial(), evs0, items0);
        let open0 = open_names(evs0);
        let ev = evs.last();
        assert(evs.take(n) == evs0);
        assert(ev == evs[n]);
        assert(pies_accepts(s, ev, items.last())) by {
            if ev matches Ok(EventView::EndElement { .. }) {
                if s.p_state != Segment::Off && s.depth - 1 >= 2 {
                    assert(s.nodes.contains_key((s.depth - 1) as u32));
                }
            }
        }
        assert forall|i: int| 0 <= i < evs.len() implies #[trigger] pies_accepts(
            pies_run(pies_initial(), evs.take(i), items.take(i)),
            evs[i],
            items[i],
        ) by {
            if i < n {
                assert(evs.take(i) == evs0.take(i));
                assert(items.take(i) == items0.take(i));
                assert(pies_accepts(pies_run(pies_initial(), evs0.take(i), items0.take(i)), evs0[i], items0[i]));
            } else {
                assert(items.take(i) == items0);
            }
        }
        law_depth_counts_open_elements(s, ev, items.last());
        law_item_count(s, ev, items.last());
        lemma_pies_segment_step(s, ev, items.last(), open0.len() as int);
    }
}

/// The conditions hold of every prefix of a run that meets them.
proof fn lemma_pies_readable_take(evs: Seq<Result<EventView, ReadErrorKind>>, items: Seq<bool>, i: int)
    requires
        pies_readable(evs, items),
        0 <= i <= evs.len(),
    ensures
        pies_readable(evs.take(i), items.take(i)),
    decreases evs.len() - i,
{
    if i == evs.len() {
        assert(evs.take(i) == evs);
        assert(items.take(i) == items);
    } else {
        lemma_pies_readable_prefix(evs, items);
        lemma_pies_readable_take(evs.drop_last(), items.drop_last(), i);
        assert(evs.drop_last().take(i) == evs.take(i));
        assert(items.drop_last().take(i) == items.take(i));
    }
}

/// In a document that meets the conditions, every entry carries the label
/// of the segment it is read in: `Header` in the header, `Price` in the
/// price sheets, `MarketingCopy` in the marketing copy, `Items` in the
/// items and `Trailer` in the trailer.
pub proof fn law_entries_carry_their_segment_label(
    evs: Seq<Result<EventView, ReadErrorKind>>,
    items: Seq<bool>,
    i: int,
)
    requires
        pies_readable(evs, items),
        0 <= i < evs.len(),
    ensures
        ({
            let s = pies_run(pies_initial(), evs.take(i), items.take(i));
            pies_next(s, evs[i], items[i]).1 matches Advance::Yield(e) ==> e.segment == match s.p_state {
                Segment::Header => "Header"@,
                Segment::Price => "Price"@,
                Segment::Mkt => "MarketingCopy"@,
                Segment::Item => "Items"@,
                _ => "Trailer"@,
            }
        }),
{
    lemma_pies_readable_take(evs, items, i);
    lemma_pies_readable_run(evs.take(i), items.take(i));
}

/// From the start of a document, the reader takes every event of a
/// document that meets the conditions: every closing element closes an
/// open one, `Header`, `PriceSheets`, `MarketingCopy` and `Items` open no
/// deeper than depth 2, no element opens while `u32::MAX` are open, and
/// at most `u32::MAX` elements counting as items open in the items
/// segment.
pub proof fn law_pies_takes_well_formed_documents(evs: Seq<Result<EventView, ReadErrorKind>>, items: Seq<bool>)
    requires
        pies_readable(evs, items),
    ensures
        pies_run_accepted(pies_initial(), evs, items),
{
    lemma_pies_readable_run(evs, items);
}

/// A reader that takes every event of a run hands out a result for it.
pub proof fn law_pies_feed_defined(s: PiesView, evs: Seq<Result<EventView, ReadErrorKind>>, items: Seq<bool>)
    requires
        items.len() == evs.len(),
        pies_run_accepted(s, evs, items),
    ensures
        pies_feed(s, evs, items) is Some,
{
    let pairs = flagged(evs, items);
    assert forall|i: int| 0 <= i < pairs.len() implies #[trigger] pies_ok()(
        run_steps(s, pairs.take(i), pies_step()),
        pairs[i],
    ) by {
        assert(pairs.take(i) == flagged(evs.take(i), items.take(i)));
        assert(pies_accepts(pies_run(s, evs.take(i), items.take(i)), evs[i], items[i]));
    }
    assert(steps_accepted(s, pairs, pies_step(), pies_ok()));
    lemma_feed_steps_defined(s, pairs, pies_step(), pies_ok());
}

/// A PIES document whose events meet the conditions above is read without
/// any event being refused.
pub proof fn law_pies_reads_well_formed_documents(doc: Seq<u8>)
    requires
        pies_readable(xml_events(doc), item_flags(xml_events(doc))),
    ensures
        pies_feed(pies_initial(), xml_events(doc), item_flags(xml_events(doc))) is Some,
{
    let evs = xml_events(doc);
    law_pies_takes_well_formed_documents(evs, item_flags(evs));
    law_pies_feed_defined(pies_initial(), evs, item_flags(evs));
}

/// Whether an element named `Header` has opened in a run.
pub open spec fn header_seen(evs: Seq<Result<EventView, ReadErrorKind>>) -> bool {
    exists|j: int| 0 <= j < evs.len() && (#[trigger] evs[j] matches Ok(EventView::StartElement { name, .. })
        && name == "Header"@)
}

/// From the start of a document, the reader is past the `Off` segment
/// exactly once an element named `Header` has opened.
pub proof fn law_header_starts_the_segments(evs: Seq<Result<EventView, ReadErrorKind>>, items: Seq<bool>)
    requires
        items.len() == evs.len(),
    ensures
        (pies_run(pies_initial(), evs, items).p_state != Segment::Off) == header_seen(evs),
    decreases evs.len(),
{
    if evs.len() > 0 {
        let evs0 = evs.drop_last();
        law_header_starts_the_segments(evs0, items.drop_last());
        lemma_pies_run_last(pies_initial(), evs, items);
        let n = evs.len() - 1;
        if header_seen(evs0) {
            let j = choose|j: int| 0 <= j < evs0.len() && (#[trigger] evs0[j] matches Ok(
                EventView::StartElement { name, .. },
            ) && name == "Header"@);
            assert(evs[j] == evs0[j]);
        }
        if header_seen(evs) && !header_seen(evs0) {
            let j = choose|j: int| 0 <= j < evs.len() && (#[trigger] evs[j] matches Ok(
                EventView::StartElement { name, .. },
            ) && name == "Header"@);
            if j < n {
                assert(evs0[j] == evs[j]);
            }
        }
        if evs.last() matches Ok(EventView::StartElement { name, .. }) && name == "Header"@ {
            assert(evs[n] == evs.last());
        }
    }
}

/// From the start of a document the reader takes, an entry comes out at
/// an event exactly when that event closes an element at depth 3 or more
/// after an element named `Header` has opened; so the entries are, in
/// order, one for each such closing element.
pub proof fn law_entries_match_deep_closings(evs: Seq<Result<EventView, ReadErrorKind>>, items: Seq<bool>, i: int)
    requires
        items.len() == evs.len(),
        pies_run_accepted(pies_initial(), evs, items),
        0 <= i < evs.len(),
    ensures
        (pies_next(pies_run(pies_initial(), evs.take(i), items.take(i)), evs[i], items[i]).1 is Yield) == (
        (evs[i] matches Ok(EventView::EndElement { .. })) && open_names(evs.take(i)).len() >= 3
            && header_seen(evs.take(i))),
{
    let e0 = evs.take(i);
    let i0 = items.take(i);
    assert forall|j: int| 0 <= j < e0.len() implies #[trigger] pies_accepts(
        pies_run(pies_initial(), e0.take(j), i0.take(j)),
        e0[j],
        i0[j],
    ) by {
        assert(e0.take(j) == evs.take(j));
        assert(i0.take(j) == items.take(j));
        assert(pies_accepts(pies_run(pies_initial(), evs.take(j), items.take(j)), evs[j], items[j]));
    }
    law_names_follow_open_elements(e0, i0);
    law_header_starts_the_segments(e0, i0);
    assert(pies_accepts(pies_run(pies_initial(), evs.take(i), items.take(i)), evs[i], items[i]));
}

/// The text that the reader holds for the next entry after a run from the
/// start of a document: the last text read after an element named `Header`
/// opened and since the last entry, if any.
pub open spec fn pending_text(evs: Seq<Result<EventView, ReadErrorKind>>) -> Option<Seq<char>>
    decreases evs.len(),
{
    if evs.len() == 0 {
        None
    } else {
        let before = evs.drop_last();
        match evs.last() {
            Ok(EventView::Characters(text)) => if header_seen(before) {
                Some(text)
            } else {
                pending_text(before)
            },
            Ok(EventView::EndElement { .. }) => if open_names(before).len() >= 3 && header_seen(before) {
                None
            } else {
                pending_text(before)
            },
            _ => pending_text(before),
        }
    }
}

/// From the start of a document the reader takes, an entry's value is the
/// last text read after an element named `Header` opened and since the
/// entry before it, if any.
pub proof fn law_entry_value_is_last_text(evs: Seq<Result<EventView, ReadErrorKind>>, items: Seq<bool>)
    requires
        items.len() == evs.len(),
        pies_run_accepted(pies_initial(), evs, items),
    ensures
        pies_run(pies_initial(), evs, items).content == pending_text(evs),
        evs.len() > 0 ==> (pies_next(
            pies_run(pies_initial(), evs.drop_last(), items.drop_last()),
            evs.last(),
            items.last(),
        ).1 matches Advance::Yield(e) ==> e.value == pending_text(evs.drop_last())),
    decreases evs.len(),
{
    if evs.len() > 0 {
        let evs0 = evs.drop_last();
        let items0 = items.drop_last();
        lemma_run_accepted_prefix(pies_initial(), evs, items);
        law_entry_value_is_last_text(evs0, items0);
        law_names_follow_open_elements(evs0, items0);
        law_header_starts_the_segments(evs0, items0);
    }
}

}
