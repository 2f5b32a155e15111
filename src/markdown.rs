use vstd::prelude::*;

use mdbook_markdown::pulldown_cmark::{Event, HeadingLevel, LinkType, Options, Tag};

verus! {

/// A container element of a markdown document.
#[derive(Debug)]
pub enum MdTag {
    BlockQuote,
    /// A heading of the given level, from 1 to 6.
    Heading(u8),
    List,
    Item,
    /// An inline link to the given destination.
    Link(String),
}

/// One step of a markdown document: an element opens or closes, or a leaf.
#[derive(Debug)]
pub enum MdEvent {
    Start(MdTag),
    End(MdTag),
    Text(String),
    Rule,
}

/// The mathematical value of a tag.
pub enum MdTagV {
    BlockQuote,
    Heading(u8),
    List,
    Item,
    Link(Seq<char>),
}

/// The mathematical value of an event.
pub enum MdEventV {
    Start(MdTagV),
    End(MdTagV),
    Text(Seq<char>),
    Rule,
}

impl View for MdTag {
    type V = MdTagV;

    open spec fn view(&self) -> MdTagV {
        match self {
            MdTag::BlockQuote => MdTagV::BlockQuote,
            MdTag::Heading(l) => MdTagV::Heading(*l),
            MdTag::List => MdTagV::List,
            MdTag::Item => MdTagV::Item,
            MdTag::Link(d) => MdTagV::Link(d@),
        }
    }
}

impl View for MdEvent {
    type V = MdEventV;

    open spec fn view(&self) -> MdEventV {
        match self {
            MdEvent::Start(t) => MdEventV::Start(t@),
            MdEvent::End(t) => MdEventV::End(t@),
            MdEvent::Text(s) => MdEventV::Text(s@),
            MdEvent::Rule => MdEventV::Rule,
        }
    }
}

pub open spec fn events_view(v: Seq<MdEvent>) -> Seq<MdEventV> {
    v.map_values(|e: MdEvent| e@)
}

pub open spec fn tag_ok(t: MdTagV) -> bool {
    t matches MdTagV::Heading(l) ==> 1 <= l <= 6
}

/// Every heading in `v` has a level from 1 to 6.
pub open spec fn events_ok(v: Seq<MdEventV>) -> bool {
    forall|i: int|
        0 <= i < v.len() ==> match #[trigger] v[i] {
            MdEventV::Start(t) => tag_ok(t),
            MdEventV::End(t) => tag_ok(t),
            _ => true,
        }
}

/// What the markdown parser reports for a text: one entry per event, the
/// destination for each link that opens and `None` for every other event.
pub uninterp spec fn cmark_links(text: Seq<char>) -> Seq<Option<Seq<char>>>;

/// The markdown text that the serializer writes for a list of events.
pub uninterp spec fn cmark_text(events: Seq<MdEventV>) -> Seq<char>;

pub open spec fn opt_text(o: Option<String>) -> Option<Seq<char>> {
    match o {
        Some(s) => Some(s@),
        None => None,
    }
}

/// The destinations of the links in `events`, in order.
pub open spec fn somes(events: Seq<Option<Seq<char>>>) -> Seq<Seq<char>>
    decreases events.len(),
{
    if events.len() == 0 {
        Seq::<Seq<char>>::empty()
    } else {
        match events.last() {
            Some(d) => somes(events.drop_last()).push(d),
            None => somes(events.drop_last()),
        }
    }
}

/// The destinations of all links in the markdown text `text`, in order.
pub open spec fn link_dests(text: Seq<char>) -> Seq<Seq<char>> {
    somes(cmark_links(text))
}

/// Relies on `mdbook_markdown::new_cmark_parser` (with the default options):
/// the events that it parses from `text`, each link opening mapped to its
/// destination and every other event to `None`.
#[verifier::external_body]
fn link_events(text: &str) -> (r: Vec<Option<String>>)
    ensures
        r@.map_values(|o: Option<String>| opt_text(o)) == cmark_links(text@),
{
    let options = mdbook_markdown::MarkdownOptions::default();
    mdbook_markdown::new_cmark_parser(text, &options).map(|e| match e {
        Event::Start(Tag::Link { dest_url, .. }) => Some(dest_url.to_string()),
        _ => None,
    }).collect()
}

#[verifier::external_type_specification]
#[verifier::external_body]
pub struct ExTag<'a>(Tag<'a>);

/// Relies on the constructors of `pulldown_cmark::Tag`: the parser's tag of
/// the same kind, a heading at the given level and a link inline.
#[verifier::external_body]
fn cmark_tag(t: &MdTag) -> (r: Tag<'static>)
    requires
        tag_ok(t@),
{
    match t {
        MdTag::BlockQuote => Tag::BlockQuote(None),
        MdTag::Heading(l) => Tag::Heading { level: HeadingLevel::try_from(*l as usize).unwrap(), id: None, classes: Vec::new(), attrs: Vec::new() },
        MdTag::List => Tag::List(None),
        MdTag::Item => Tag::Item,
        MdTag::Link(u) => Tag::Link { link_type: LinkType::Inline, dest_url: u.clone().into(), title: "".into(), id: "".into() },
    }
}

/// Relies on `pulldown_cmark_to_cmark::cmark`: the markdown text for `events`,
/// each event taken one for one to the parser's event of the same kind.
#[verifier::external_body]
fn render_events(events: &Vec<MdEvent>) -> (r: String)
    requires
        events_ok(events_view(events@)),
    ensures
        r@ == cmark_text(events_view(events@)),
{
    let evs = events.iter().map(|e| match e {
        MdEvent::Start(t) => Event::Start(cmark_tag(t)),
        MdEvent::End(t) => Event::End(cmark_tag(t).to_end()),
        MdEvent::Text(s) => Event::Text(s.clone().into()),
        MdEvent::Rule => Event::Rule,
    });
    let mut s = String::new();
    let _ = pulldown_cmark_to_cmark::cmark(evs, &mut s, Options::empty());
    s
}

/// The destinations of every link in the markdown text `content`, in the
/// order in which they occur; links inside code are not links.
pub fn extract_links(content: &str) -> (r: Vec<String>)
    ensures
        r@.map_values(|s: String| s@) == link_dests(content@),
{
    let events = link_events(content);
    let ghost ev = events@.map_values(|o: Option<String>| opt_text(o));
    let mut r: Vec<String> = Vec::new();
    let mut i: usize = 0;
    while i < events.len()
        invariant
            0 <= i <= events.len(),
            ev == events@.map_values(|o: Option<String>| opt_text(o)),
            ev == cmark_links(content@),
            r@.map_values(|s: String| s@) == somes(ev.take(i as int)),
        decreases events.len() - i,
    {
        proof {
            assert(ev.take(i + 1).drop_last() == ev.take(i as int));
            assert(ev.take(i + 1).last() == opt_text(events@[i as int]));
        }
        match &events[i] {
            Some(d) => {
                let ghost before = r@.map_values(|s: String| s@);
                r.push(d.clone());
                proof {
                    assert(r@.map_values(|s: String| s@) =~= before.push(d@));
                }
            },
            None => {},
        }
        i = i + 1;
    }
    proof {
        assert(ev.take(events.len() as int) == ev);
    }
    r
}

/// A list of markdown events under construction.
pub struct MarkdownBuilder {
    pub events: Vec<MdEvent>,
}

impl MarkdownBuilder {
    pub open spec fn spec_events(&self) -> Seq<MdEventV> {
        events_view(self.events@)
    }

    /// An empty document.
    pub fn new() -> (r: MarkdownBuilder)
        ensures
            r.spec_events() == Seq::<MdEventV>::empty(),
    {
        let r = MarkdownBuilder { events: Vec::new() };
        proof {
            assert(r.spec_events() =~= Seq::<MdEventV>::empty());
        }
        r
    }

    /// Writes the document as markdown at the end of `s`.
    pub fn write_to_string(self, s: &mut String)
        requires
            events_ok(self.spec_events()),
        ensures
            final(s)@ == old(s)@ + cmark_text(self.spec_events()),
    {
        let text = render_events(&self.events);
        s.append(text.as_str());
    }

    /// Adds one event.
    pub fn event(&mut self, event: MdEvent)
        ensures
            final(self).spec_events() == old(self).spec_events().push(event@),
    {
        self.events.push(event);
        proof {
            assert(final(self).spec_events() =~= old(self).spec_events().push(event@));
        }
    }

    /// Adds a piece of text.
    pub fn text(&mut self, txt: String)
        ensures
            final(self).spec_events() == old(self).spec_events().push(MdEventV::Text(txt@)),
    {
        self.event(MdEvent::Text(txt));
    }

    /// Adds the events of `inner` with `tag` opened before them and closed
    /// after them.
    pub fn tag(&mut self, tag: MdTag, inner: MarkdownBuilder)
        ensures
            final(self).spec_events() == old(self).spec_events() + seq![MdEventV::Start(tag@)]
                + inner.spec_events() + seq![MdEventV::End(tag@)],
    {
        let end = tag.duplicate();
        let ghost inner_events = inner.spec_events();
        let mut inner = inner;
        self.event(MdEvent::Start(tag));
        let ghost mid = self.spec_events();
        self.events.append(&mut inner.events);
        proof {
            assert(self.spec_events() =~= mid + inner_events);
        }
        self.event(MdEvent::End(end));
    }
}

impl MarkdownBuilder {
    /// Adds a heading of level `level` holding the events of `inner`.
    pub fn simple_heading(&mut self, level: u8, inner: MarkdownBuilder)
        ensures
            final(self).spec_events() == old(self).spec_events() + seq![MdEventV::Start(MdTagV::Heading(level))]
                + inner.spec_events() + seq![MdEventV::End(MdTagV::Heading(level))],
    {
        self.tag(MdTag::Heading(level), inner);
    }

    /// Adds an inline link to `dest_url` whose text is the events of `inner`.
    pub fn simple_link(&mut self, dest_url: String, inner: MarkdownBuilder)
        ensures
            final(self).spec_events() == old(self).spec_events() + seq![MdEventV::Start(MdTagV::Link(dest_url@))]
                + inner.spec_events() + seq![MdEventV::End(MdTagV::Link(dest_url@))],
    {
        self.tag(MdTag::Link(dest_url), inner);
    }
}

impl MdTag {
    /// A copy of this tag.
    pub fn duplicate(&self) -> (r: MdTag)
        ensures
            r@ == self@,
    {
        match self {
            MdTag::BlockQuote => MdTag::BlockQuote,
            MdTag::Heading(l) => MdTag::Heading(*l),
            MdTag::List => MdTag::List,
            MdTag::Item => MdTag::Item,
            MdTag::Link(d) => MdTag::Link(d.clone()),
        }
    }
}

} // verus!
