//! What the screen shows while plugins are loaded and installed.
//!
//! A manager of the progress takes messages one at a time, and answers each with what to draw.

use crate::text;
use vstd::prelude::*;

pub mod table;
pub mod model;
pub mod manager;
pub mod process;
pub mod laws;
pub mod messages;

verus! {

/// How a piece of text is shown.
#[derive(Clone, Copy, Debug, PartialEq, Eq, Structural)]
pub enum Tone {
    Plain,
    Dim,
    DimItalic,
    DimBlue,
    Blue,
    Green,
    Red,
    Yellow,
}

/// A piece of text with its tone.
#[derive(Debug, PartialEq, Eq)]
pub struct Span {
    pub tone: Tone,
    pub text: String,
}

impl View for Span {
    type V = (Tone, Seq<char>);

    open spec fn view(&self) -> (Tone, Seq<char>) {
        (self.tone, self.text@)
    }
}

/// Pieces of text.
pub open spec fn spans(list: Seq<Span>) -> Seq<(Tone, Seq<char>)> {
    list.map_values(|s: Span| s@)
}

/// The layout of a bar.
#[derive(Clone, Copy, Debug, PartialEq, Eq, Structural)]
pub enum Look {
    /// A prefix and a message.
    Plain,
    /// A spinner, a branch, a prefix and a message.
    SpinnerMid,
    /// The same at the end of the tree.
    SpinnerLast,
    /// A stem alone.
    BlankMid,
    /// Nothing.
    BlankLast,
    /// A note under a branch.
    NoteMid,
    /// The same at the end of the tree.
    NoteLast,
    /// A branch with a bar.
    BarMid,
    /// The same at the end of the tree.
    BarLast,
    /// A line that stays, with a prefix of its own tones.
    Summary,
    /// The bar of the plugins to load.
    Loading,
}

/// The measure of a new bar.
#[derive(Clone, Copy, Debug, PartialEq, Eq, Structural)]
pub enum Shape {
    NoLength,
    Spinner,
    Length(u64),
}

/// Which bar.
#[derive(Debug, PartialEq, Eq)]
pub enum BarRef {
    Named(String),
    Updating,
}

/// Which bar.
pub enum At {
    Named(Seq<char>),
    Updating,
}

impl View for BarRef {
    type V = At;

    open spec fn view(&self) -> At {
        match self {
            BarRef::Named(name) => At::Named(name@),
            BarRef::Updating => At::Updating,
        }
    }
}

/// Where a new bar goes.
#[derive(Debug, PartialEq, Eq)]
pub enum Place {
    End,
    Before(BarRef),
    After(BarRef),
}

/// Where a new bar goes.
pub enum Spot {
    End,
    Before(At),
    After(At),
}

impl View for Place {
    type V = Spot;

    open spec fn view(&self) -> Spot {
        match self {
            Place::End => Spot::End,
            Place::Before(bar) => Spot::Before(bar@),
            Place::After(bar) => Spot::After(bar@),
        }
    }
}

/// A thing to do on the screen.
#[derive(Debug, PartialEq, Eq)]
pub enum UiOp {
    /// Adds a bar; `tick` is the time between its turns, in milliseconds.
    Add {
        bar: BarRef,
        place: Place,
        shape: Shape,
        look: Look,
        prefix: String,
        tick: Option<u64>,
    },
    /// Sets the message of a bar.
    Message(BarRef, Vec<Span>),
    /// Sets the prefix of a bar.
    Prefix(BarRef, Vec<Span>),
    /// Sets the layout of a bar.
    Style(BarRef, Look),
    /// Sets the layout of a bar, and draws it.
    Redraw(BarRef, Look),
    /// Makes a bar longer.
    IncLength(BarRef, u64),
    /// Moves a bar on.
    Inc(BarRef, u64),
    /// Sets the length of a bar.
    Length(BarRef, u64),
    /// Sets the position of a bar.
    Position(BarRef, u64),
    /// Ends a bar and takes it off the screen.
    Clear(BarRef),
    /// Ends a bar and leaves a message.
    Finish(BarRef, Vec<Span>),
    /// Stops the turns of a bar.
    StopTick(BarRef),
    /// Prints a block above the bars.
    Print(Vec<Span>),
    /// Shows the progress in the title of the terminal; without a number, that work goes on.
    Title(Option<u8>),
    /// Shows no progress in the title of the terminal.
    ClearTitle,
    /// Shows how many plugins are worked on.
    Running(usize),
    /// Sends the note on the fetched repository back after a while.
    Timer(u64),
    /// Prints an error.
    Error(String),
}

/// A thing to do on the screen.
#[verifier::ext_equal]
pub enum Op {
    Add { bar: At, place: Spot, shape: Shape, look: Look, prefix: Seq<char>, tick: Option<u64> },
    Message(At, Seq<(Tone, Seq<char>)>),
    Prefix(At, Seq<(Tone, Seq<char>)>),
    Style(At, Look),
    Redraw(At, Look),
    IncLength(At, u64),
    Inc(At, u64),
    Length(At, u64),
    Position(At, u64),
    Clear(At),
    Finish(At, Seq<(Tone, Seq<char>)>),
    StopTick(At),
    Print(Seq<(Tone, Seq<char>)>),
    Title(Option<u8>),
    ClearTitle,
    Running(usize),
    Timer(u64),
    Error(Seq<char>),
}

impl View for UiOp {
    type V = Op;

    open spec fn view(&self) -> Op {
        match self {
            UiOp::Add { bar, place, shape, look, prefix, tick } => Op::Add {
                bar: bar@,
                place: place@,
                shape: *shape,
                look: *look,
                prefix: prefix@,
                tick: *tick,
            },
            UiOp::Message(bar, message) => Op::Message(bar@, spans(message@)),
            UiOp::Prefix(bar, prefix) => Op::Prefix(bar@, spans(prefix@)),
            UiOp::Style(bar, look) => Op::Style(bar@, *look),
            UiOp::Redraw(bar, look) => Op::Redraw(bar@, *look),
            UiOp::IncLength(bar, n) => Op::IncLength(bar@, *n),
            UiOp::Inc(bar, n) => Op::Inc(bar@, *n),
            UiOp::Length(bar, n) => Op::Length(bar@, *n),
            UiOp::Position(bar, n) => Op::Position(bar@, *n),
            UiOp::Clear(bar) => Op::Clear(bar@),
            UiOp::Finish(bar, message) => Op::Finish(bar@, spans(message@)),
            UiOp::StopTick(bar) => Op::StopTick(bar@),
            UiOp::Print(block) => Op::Print(spans(block@)),
            UiOp::Title(percent) => Op::Title(*percent),
            UiOp::ClearTitle => Op::ClearTitle,
            UiOp::Running(n) => Op::Running(*n),
            UiOp::Timer(idle_gen) => Op::Timer(*idle_gen),
            UiOp::Error(message) => Op::Error(message@),
        }
    }
}

/// Things to do.
pub open spec fn ops(list: Seq<UiOp>) -> Seq<Op> {
    list.map_values(|op: UiOp| op@)
}

/// What is known of a bar.
#[derive(Debug)]
pub struct BarState {
    pub last_message: Option<Vec<Span>>,
    pub position: u64,
    pub length: Option<u64>,
}

/// What is known of a bar.
#[verifier::ext_equal]
pub struct Bar {
    pub last: Option<Seq<(Tone, Seq<char>)>>,
    pub position: u64,
    pub length: Option<u64>,
}

impl View for BarState {
    type V = Bar;

    open spec fn view(&self) -> Bar {
        Bar {
            last: match self.last_message {
                Some(message) => Some(spans(message@)),
                None => None,
            },
            position: self.position,
            length: self.length,
        }
    }
}

/// A branch of the tree under the bar of the plugins to load.
#[derive(Debug, PartialEq, Eq)]
pub enum ChildKey {
    FetchStage,
    FetchDone,
    FetchProgress,
    Updating,
    GraphQLResolve,
    Building(String),
}

/// A branch of the tree under the bar of the plugins to load.
pub enum Child {
    FetchStage,
    FetchDone,
    FetchProgress,
    Updating,
    GraphQLResolve,
    Building(Seq<char>),
}

impl View for ChildKey {
    type V = Child;

    open spec fn view(&self) -> Child {
        match self {
            ChildKey::FetchStage => Child::FetchStage,
            ChildKey::FetchDone => Child::FetchDone,
            ChildKey::FetchProgress => Child::FetchProgress,
            ChildKey::Updating => Child::Updating,
            ChildKey::GraphQLResolve => Child::GraphQLResolve,
            ChildKey::Building(id) => Child::Building(id@),
        }
    }
}

/// Branches.
pub open spec fn children(list: Seq<ChildKey>) -> Seq<Child> {
    list.map_values(|c: ChildKey| c@)
}

/// The bar of the configuration files.
pub const CONFIG_FILES: &'static str = "config_files";

/// The bar of the plugins to load.
pub const LOADING: &'static str = "loading";

/// The bar of the packages that are there already.
pub const INSTALL_SKIPPED: &'static str = "install_skipped";

/// The bar of the files that are copied.
pub const INSTALL_YANK: &'static str = "install_yank";

/// The bar of the revisions to resolve.
pub const GRAPHQL_PROGRESS_ID: &'static str = "graphql_resolve";

/// The bar of the objects to receive.
pub const CACHE_FETCH_PROGRESS_ID: &'static str = "cache_fetch_progress";

/// The bar of the repository that is fetched.
pub const CACHE_FETCH_STAGE_ID: &'static str = "cache_fetch_stage";

/// The note on the repository that was fetched last.
pub const CACHE_FETCH_DONE_ID: &'static str = "cache_fetch_done";

impl Span {
    pub fn new(tone: Tone, text: &str) -> (span: Span)
        ensures
            span@ == (tone, text@),
    {
        Span { tone, text: text.to_owned() }
    }

    fn duplicate(&self) -> (copy: Span)
        ensures
            copy@ == self@,
    {
        Span { tone: self.tone, text: self.text.clone() }
    }
}

/// The same pieces again.
pub(crate) fn duplicate_spans(list: &Vec<Span>) -> (copy: Vec<Span>)
    ensures
        spans(copy@) == spans(list@),
{
    let mut copy: Vec<Span> = Vec::new();
    let mut i: usize = 0;
    while i < list.len()
        invariant
            i <= list@.len(),
            copy@.len() == i,
            forall|k: int| 0 <= k < i ==> (#[trigger] copy@[k])@ == list@[k]@,
        decreases list@.len() - i,
    {
        copy.push(list[i].duplicate());
        i = i + 1;
    }
    assert(spans(copy@) =~= spans(list@));
    copy
}

/// Whether two lists of pieces are the same.
pub(crate) fn same_spans(a: &Vec<Span>, b: &Vec<Span>) -> (same: bool)
    ensures
        same == (spans(a@) == spans(b@)),
{
    if a.len() != b.len() {
        assert(spans(a@).len() != spans(b@).len());
        return false;
    }
    let mut i: usize = 0;
    while i < a.len()
        invariant
            i <= a@.len(),
            a@.len() == b@.len(),
            forall|k: int| 0 <= k < i ==> (#[trigger] a@[k])@ == b@[k]@,
        decreases a@.len() - i,
    {
        if a[i].tone != b[i].tone || !text::same(a[i].text.as_str(), b[i].text.as_str()) {
            proof {
                assert(spans(a@)[i as int] != spans(b@)[i as int]);
            }
            return false;
        }
        i = i + 1;
    }
    assert(spans(a@) =~= spans(b@));
    true
}

/// One piece.
pub(crate) fn one(tone: Tone, text: &str) -> (list: Vec<Span>)
    ensures
        spans(list@) == seq![(tone, text@)],
{
    let mut list: Vec<Span> = Vec::new();
    list.push(Span::new(tone, text));
    assert(spans(list@) =~= seq![(tone, text@)]);
    list
}

/// Adds a piece.
pub(crate) fn push_span(list: &mut Vec<Span>, tone: Tone, text: &str)
    ensures
        spans(final(list)@) == spans(old(list)@).push((tone, text@)),
{
    let ghost before = list@;
    list.push(Span::new(tone, text));
    assert(spans(list@) =~= spans(before).push((tone, text@)));
}

impl BarRef {
    pub fn duplicate(&self) -> (copy: BarRef)
        ensures
            copy@ == self@,
    {
        match self {
            BarRef::Named(name) => BarRef::Named(name.clone()),
            BarRef::Updating => BarRef::Updating,
        }
    }
}

impl ChildKey {
    pub fn duplicate(&self) -> (copy: ChildKey)
        ensures
            copy@ == self@,
    {
        match self {
            ChildKey::FetchStage => ChildKey::FetchStage,
            ChildKey::FetchDone => ChildKey::FetchDone,
            ChildKey::FetchProgress => ChildKey::FetchProgress,
            ChildKey::Updating => ChildKey::Updating,
            ChildKey::GraphQLResolve => ChildKey::GraphQLResolve,
            ChildKey::Building(id) => ChildKey::Building(id.clone()),
        }
    }

    /// Whether two branches are the same.
    pub fn same(&self, other: &ChildKey) -> (same: bool)
        ensures
            same == (self@ == other@),
    {
        match (self, other) {
            (ChildKey::FetchStage, ChildKey::FetchStage) => true,
            (ChildKey::FetchDone, ChildKey::FetchDone) => true,
            (ChildKey::FetchProgress, ChildKey::FetchProgress) => true,
            (ChildKey::Updating, ChildKey::Updating) => true,
            (ChildKey::GraphQLResolve, ChildKey::GraphQLResolve) => true,
            (ChildKey::Building(a), ChildKey::Building(b)) => text::same(a.as_str(), b.as_str()),
            _ => false,
        }
    }

    /// The bar of a branch.
    pub fn bar(&self) -> (bar: BarRef)
        ensures
            bar@ == model::at_of(self@),
    {
        match self {
            ChildKey::FetchStage => named(CACHE_FETCH_STAGE_ID),
            ChildKey::FetchDone => named(CACHE_FETCH_DONE_ID),
            ChildKey::FetchProgress => named(CACHE_FETCH_PROGRESS_ID),
            ChildKey::Updating => BarRef::Updating,
            ChildKey::GraphQLResolve => named(GRAPHQL_PROGRESS_ID),
            ChildKey::Building(id) => named(id.as_str()),
        }
    }
}

/// The bar of a name.
pub(crate) fn named(name: &str) -> (bar: BarRef)
    ensures
        bar@ == At::Named(name@),
{
    BarRef::Named(name.to_owned())
}

} // verus!
