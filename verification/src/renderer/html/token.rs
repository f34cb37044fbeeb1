//! The HTML tokenizer: a state machine over the characters of a document
//! that yields start tags, end tags and characters on demand.
//!
//! The machine is described twice. [`TokenizerModel`] and the spec functions
//! around it ([`transition`], [`iterate`], [`run`], [`spec_next`],
//! [`tokens`]) give its meaning over plain sequences; [`HtmlTokenizer`] is
//! the executable machine, and every method of it is proved to do what the
//! model says.

use crate::renderer::html::attribute::{attribute_views, Attribute, AttributeView};
use crate::text::{
    has_no_ascii_uppercase, is_ascii_alphabetic, lowercased, push_char,
    spec_is_ascii_alphabetic, spec_is_ascii_uppercase, spec_to_ascii_lowercase,
    to_ascii_lowercase,
};
use vstd::prelude::*;

verus! {

/// A token of an HTML document.
#[derive(Debug, Clone, PartialEq, Eq)]
pub enum HTMLToken {
    /// An opening tag, with its lowercased name and its attributes in source
    /// order.
    StartTag { tag: String, self_closing: bool, attributes: Vec<Attribute> },
    /// A closing tag, with its lowercased name.
    EndTag { tag: String },
    /// One character of text.
    Char(char),
    /// The end of the input. It comes once, behind the last token of a
    /// text that is not empty.
    Eof,
}

/// What a token stands for.
pub enum TokenView {
    StartTag { tag: Seq<char>, self_closing: bool, attributes: Seq<AttributeView> },
    EndTag { tag: Seq<char> },
    Char(char),
    Eof,
}

impl View for HTMLToken {
    type V = TokenView;

    open spec fn view(&self) -> TokenView {
        match self {
            HTMLToken::StartTag { tag, self_closing, attributes } => TokenView::StartTag {
                tag: tag@,
                self_closing: *self_closing,
                attributes: attribute_views(attributes@),
            },
            HTMLToken::EndTag { tag } => TokenView::EndTag { tag: tag@ },
            HTMLToken::Char(c) => TokenView::Char(*c),
            HTMLToken::Eof => TokenView::Eof,
        }
    }
}

/// The view of a token that may be absent.
pub open spec fn token_view(t: Option<HTMLToken>) -> Option<TokenView> {
    match t {
        Some(t) => Some(t@),
        None => None,
    }
}

/// The attributes among `attributes` whose name is not empty, in order.
pub open spec fn named(attributes: Seq<AttributeView>) -> Seq<AttributeView>
    decreases attributes.len(),
{
    if attributes.len() == 0 {
        attributes
    } else if attributes.last().name.len() > 0 {
        named(attributes.drop_last()).push(attributes.last())
    } else {
        named(attributes.drop_last())
    }
}

/// Every attribute among `attributes` has a name.
pub open spec fn all_named(attributes: Seq<AttributeView>) -> bool {
    forall|i: int| 0 <= i < attributes.len() ==> (#[trigger] attributes[i]).name.len() > 0
}

/// What [`named`] keeps has a name.
pub proof fn lemma_named_are_named(attributes: Seq<AttributeView>)
    ensures
        all_named(named(attributes)),
        all_named(attributes) ==> named(attributes) == attributes,
    decreases attributes.len(),
{
    if attributes.len() > 0 {
        lemma_named_are_named(attributes.drop_last());
        if all_named(attributes) {
            assert(all_named(attributes.drop_last()));
            assert(attributes.drop_last().push(attributes.last()) =~= attributes);
        }
    }
}

impl TokenView {
    /// The token is a start tag or an end tag.
    pub open spec fn is_tag(self) -> bool {
        self is StartTag || self is EndTag
    }

    /// The name of a start tag or an end tag; empty for other tokens.
    pub open spec fn tag_name(self) -> Seq<char> {
        match self {
            TokenView::StartTag { tag, .. } => tag,
            TokenView::EndTag { tag } => tag,
            _ => Seq::empty(),
        }
    }

    /// The attributes of a start tag; empty for other tokens.
    pub open spec fn attrs(self) -> Seq<AttributeView> {
        match self {
            TokenView::StartTag { attributes, .. } => attributes,
            _ => Seq::empty(),
        }
    }

    /// The token with `c` appended to its tag name.
    pub open spec fn with_tag_char(self, c: char) -> TokenView {
        match self {
            TokenView::StartTag { tag, self_closing, attributes } => TokenView::StartTag {
                tag: tag.push(c),
                self_closing,
                attributes,
            },
            TokenView::EndTag { tag } => TokenView::EndTag { tag: tag.push(c) },
            other => other,
        }
    }

    /// A start tag with a fresh, empty attribute appended; any other token
    /// unchanged.
    pub open spec fn with_new_attribute(self) -> TokenView {
        match self {
            TokenView::StartTag { tag, self_closing, attributes } => TokenView::StartTag {
                tag,
                self_closing,
                attributes: attributes.push(
                    AttributeView { name: Seq::empty(), value: Seq::empty() },
                ),
            },
            other => other,
        }
    }

    /// A start tag with `c` appended to the name (`is_name`) or the value of
    /// its last attribute; any other token, or a start tag without
    /// attributes, unchanged.
    pub open spec fn with_attribute_char(self, c: char, is_name: bool) -> TokenView {
        match self {
            TokenView::StartTag { tag, self_closing, attributes } => if attributes.len() > 0 {
                let last = attributes.last();
                let grown = if is_name {
                    AttributeView { name: last.name.push(c), value: last.value }
                } else {
                    AttributeView { name: last.name, value: last.value.push(c) }
                };
                TokenView::StartTag {
                    tag,
                    self_closing,
                    attributes: attributes.update(attributes.len() - 1, grown),
                }
            } else {
                self
            },
            other => other,
        }
    }

    /// The token as it is handed out: a start tag keeps the attributes that
    /// have a name, in order; any other token is unchanged.
    pub open spec fn committed(self) -> TokenView {
        match self {
            TokenView::StartTag { tag, self_closing, attributes } => TokenView::StartTag {
                tag,
                self_closing,
                attributes: named(attributes),
            },
            other => other,
        }
    }

    /// A start tag marked self-closing; any other token unchanged.
    pub open spec fn with_self_closing(self) -> TokenView {
        match self {
            TokenView::StartTag { tag, self_closing, attributes } => TokenView::StartTag {
                tag,
                self_closing: true,
                attributes,
            },
            other => other,
        }
    }
}

/// The states of the tokenizer.
#[derive(Debug, Clone, Copy, PartialEq, Eq)]
pub enum State {
    Data,
    TagOpen,
    EndTagOpen,
    TagName,
    BeforeAttributeName,
    AttributeName,
    AfterAttributeName,
    BeforeAttributeValue,
    AttributeValueDoubleQuoted,
    AttributeValueSingleQuoted,
    AttributeValueUnquoted,
    AfterAttributeValueQuoted,
    SelfClosingStartTag,
    ScriptData,
    ScriptDataLessThanSign,
    ScriptDataEndTagOpen,
    ScriptDataEndTagName,
    TemporaryBuffer,
}

impl State {
    /// The states in which a tag is under construction.
    pub open spec fn builds_tag(self) -> bool {
        match self {
            State::TagName
            | State::BeforeAttributeName
            | State::AttributeName
            | State::AfterAttributeName
            | State::BeforeAttributeValue
            | State::AttributeValueDoubleQuoted
            | State::AttributeValueSingleQuoted
            | State::AttributeValueUnquoted
            | State::AfterAttributeValueQuoted
            | State::SelfClosingStartTag
            | State::ScriptDataEndTagName => true,
            _ => false,
        }
    }

    /// The states that append characters to the last attribute.
    pub open spec fn fills_attribute(self) -> bool {
        match self {
            State::AttributeName
            | State::BeforeAttributeValue
            | State::AttributeValueDoubleQuoted
            | State::AttributeValueSingleQuoted
            | State::AttributeValueUnquoted => true,
            _ => false,
        }
    }
}

/// The tokenizer as plain data.
pub struct TokenizerModel {
    /// The current state.
    pub state: State,
    /// How many characters of the input have been read.
    pub pos: nat,
    /// Whether the next step reads the last character again.
    pub reconsume: bool,
    /// The tag under construction, if any.
    pub latest: Option<TokenView>,
    /// The characters of the document.
    pub input: Seq<char>,
    /// Characters held back while an end tag inside a script is recognised.
    pub buf: Seq<char>,
    /// Whether `Eof` was handed out.
    pub finished: bool,
}

/// A model after one step, and the token that the step emitted, if any.
pub struct Step {
    pub next: TokenizerModel,
    pub emitted: Option<TokenView>,
}

/// A space, a slash or a closing angle bracket: the characters that end an
/// attribute name.
pub open spec fn ends_attribute_name(c: char) -> bool {
    c == ' ' || c == '/' || c == '>'
}

impl TokenizerModel {
    /// The tokenizer for `input`, before anything was read.
    pub open spec fn initial(input: Seq<char>) -> TokenizerModel {
        TokenizerModel {
            state: State::Data,
            pos: 0,
            reconsume: false,
            latest: None,
            input,
            buf: Seq::empty(),
            finished: false,
        }
    }

    /// A start tag is under construction.
    pub open spec fn builds_start_tag(self) -> bool {
        self.latest matches Some(t) && t is StartTag
    }

    /// How many attributes the tag under construction has.
    pub open spec fn attribute_count(self) -> nat {
        match self.latest {
            Some(t) => t.attrs().len(),
            None => 0,
        }
    }

    /// The invariant of the machine: the position is within the input, a
    /// character to read again exists, a tag is under construction in the
    /// states that build one and never holds an ASCII uppercase letter in
    /// its name, and an attribute exists in the states that fill one.
    pub open spec fn wf(self) -> bool {
        &&& self.pos <= self.input.len()
        &&& self.reconsume ==> self.pos >= 1
        &&& self.latest matches Some(t) ==> t.is_tag() && has_no_ascii_uppercase(t.tag_name())
        &&& self.state.builds_tag() ==> self.latest is Some
        &&& self.state.fills_attribute() && self.builds_start_tag() ==> self.attribute_count() > 0
        &&& self.state == State::AfterAttributeName && self.builds_start_tag()
            && self.attribute_count() == 0 ==> self.reconsume && (self.input[self.pos - 1] == '/'
            || self.input[self.pos - 1] == '>')
    }

    /// Nothing is left to read: the position is at the end and no character
    /// is to be read again.
    pub open spec fn exhausted(self) -> bool {
        !self.reconsume && self.pos >= self.input.len()
    }

    /// The character that the next step reads.
    pub open spec fn current(self) -> char {
        if self.reconsume {
            self.input[self.pos - 1]
        } else {
            self.input[self.pos as int]
        }
    }

    /// The model once the next character was read: the flag is cleared, and
    /// the position moves on unless the character was read again.
    pub open spec fn after_read(self) -> TokenizerModel {
        if self.reconsume {
            TokenizerModel { reconsume: false, ..self }
        } else {
            TokenizerModel { pos: self.pos + 1, ..self }
        }
    }

    /// What [`transition`] needs of the model and the character just read.
    pub open spec fn ready_for(self, c: char) -> bool {
        &&& 1 <= self.pos <= self.input.len()
        &&& !self.reconsume
        &&& c == self.input[self.pos - 1]
        &&& self.latest matches Some(t) ==> t.is_tag() && has_no_ascii_uppercase(t.tag_name())
        &&& self.state.builds_tag() ==> self.latest is Some
        &&& self.state.fills_attribute() && self.builds_start_tag() ==> self.attribute_count() > 0
        &&& self.state == State::AfterAttributeName && self.builds_start_tag()
            && self.attribute_count() == 0 ==> c == '/' || c == '>'
    }

    /// The model in another state.
    pub open spec fn to(self, state: State) -> TokenizerModel {
        TokenizerModel { state, ..self }
    }

    /// The model in another state, with the last character to be read again.
    pub open spec fn again_in(self, state: State) -> TokenizerModel {
        TokenizerModel { state, reconsume: true, ..self }
    }

    /// The model with another tag under construction.
    pub open spec fn with_latest(self, latest: Option<TokenView>) -> TokenizerModel {
        TokenizerModel { latest, ..self }
    }

    /// A step that emits nothing.
    pub open spec fn silent(self) -> Step {
        Step { next: self, emitted: None }
    }

    /// The step that hands out the tag under construction, without the
    /// attributes that have no name, and returns to `Data`.
    pub open spec fn emit_latest(self) -> Step {
        Step {
            next: TokenizerModel { state: State::Data, latest: None, ..self },
            emitted: match self.latest {
                Some(t) => Some(t.committed()),
                None => None,
            },
        }
    }

    /// The tag under construction with `f` applied to it.
    pub open spec fn map_latest(self, f: spec_fn(TokenView) -> TokenView) -> TokenizerModel {
        match self.latest {
            Some(t) => self.with_latest(Some(f(t))),
            None => self,
        }
    }
}

/// What holds of every token that is handed out: the name of a tag holds
/// no ASCII uppercase letter, and every attribute has a name.
pub open spec fn is_well_formed(t: Option<TokenView>) -> bool {
    match t {
        Some(t) => has_no_ascii_uppercase(t.tag_name()) && all_named(t.attrs()),
        None => true,
    }
}

/// An empty start tag.
pub open spec fn empty_start_tag() -> TokenView {
    TokenView::StartTag { tag: Seq::empty(), self_closing: false, attributes: Seq::empty() }
}

/// An empty end tag.
pub open spec fn empty_end_tag() -> TokenView {
    TokenView::EndTag { tag: Seq::empty() }
}

/// One step of the machine on the character `c`, which was just read.
pub open spec fn transition(m: TokenizerModel, c: char) -> Step {
    match m.state {
        State::Data => if c == '<' {
            m.to(State::TagOpen).silent()
        } else {
            Step { next: m, emitted: Some(TokenView::Char(c)) }
        },
        State::TagOpen => if c == '/' {
            m.to(State::EndTagOpen).silent()
        } else if spec_is_ascii_alphabetic(c) {
            m.again_in(State::TagName).with_latest(Some(empty_start_tag())).silent()
        } else {
            m.again_in(State::Data).silent()
        },
        State::EndTagOpen => if spec_is_ascii_alphabetic(c) {
            m.again_in(State::TagName).with_latest(Some(empty_end_tag())).silent()
        } else {
            m.silent()
        },
        State::TagName => if c == ' ' {
            m.to(State::BeforeAttributeName).silent()
        } else if c == '/' {
            m.to(State::SelfClosingStartTag).silent()
        } else if c == '>' {
            m.emit_latest()
        } else {
            m.map_latest(|t: TokenView| t.with_tag_char(spec_to_ascii_lowercase(c))).silent()
        },
        State::BeforeAttributeName => if c == '/' || c == '>' {
            m.again_in(State::AfterAttributeName).silent()
        } else {
            m.again_in(State::AttributeName).map_latest(
                |t: TokenView| t.with_new_attribute(),
            ).silent()
        },
        State::AttributeName => if ends_attribute_name(c) {
            m.again_in(State::AfterAttributeName).silent()
        } else if c == '=' {
            m.to(State::BeforeAttributeValue).silent()
        } else {
            m.map_latest(
                |t: TokenView| t.with_attribute_char(spec_to_ascii_lowercase(c), true),
            ).silent()
        },
        State::AfterAttributeName => if c == ' ' {
            m.silent()
        } else if c == '/' {
            m.to(State::SelfClosingStartTag).silent()
        } else if c == '=' {
            m.to(State::BeforeAttributeValue).silent()
        } else if c == '>' {
            m.emit_latest()
        } else {
            m.again_in(State::AttributeName).map_latest(
                |t: TokenView| t.with_new_attribute(),
            ).silent()
        },
        State::BeforeAttributeValue => if c == ' ' {
            m.silent()
        } else if c == '"' {
            m.to(State::AttributeValueDoubleQuoted).silent()
        } else if c == '\'' {
            m.to(State::AttributeValueSingleQuoted).silent()
        } else {
            m.again_in(State::AttributeValueUnquoted).silent()
        },
        State::AttributeValueDoubleQuoted => if c == '"' {
            m.to(State::AfterAttributeValueQuoted).silent()
        } else {
            m.map_latest(|t: TokenView| t.with_attribute_char(c, false)).silent()
        },
        State::AttributeValueSingleQuoted => if c == '\'' {
            m.to(State::AfterAttributeValueQuoted).silent()
        } else {
            m.map_latest(|t: TokenView| t.with_attribute_char(c, false)).silent()
        },
        State::AttributeValueUnquoted => if c == ' ' {
            m.to(State::BeforeAttributeName).silent()
        } else if c == '>' {
            m.emit_latest()
        } else {
            m.map_latest(|t: TokenView| t.with_attribute_char(c, false)).silent()
        },
        State::AfterAttributeValueQuoted => if c == ' ' {
            m.to(State::BeforeAttributeName).silent()
        } else if c == '/' {
            m.to(State::SelfClosingStartTag).silent()
        } else if c == '>' {
            m.emit_latest()
        } else {
            m.again_in(State::BeforeAttributeName).silent()
        },
        State::SelfClosingStartTag => if c == '>' {
            m.map_latest(|t: TokenView| t.with_self_closing()).emit_latest()
        } else {
            m.silent()
        },
        State::ScriptData => if c == '<' {
            m.to(State::ScriptDataLessThanSign).silent()
        } else {
            Step { next: m, emitted: Some(TokenView::Char(c)) }
        },
        State::ScriptDataLessThanSign => if c == '/' {
            TokenizerModel { state: State::ScriptDataEndTagOpen, buf: Seq::empty(), ..m }.silent()
        } else {
            Step { next: m.again_in(State::ScriptData), emitted: Some(TokenView::Char('<')) }
        },
        State::ScriptDataEndTagOpen => if spec_is_ascii_alphabetic(c) {
            m.again_in(State::ScriptDataEndTagName).with_latest(Some(empty_end_tag())).silent()
        } else {
            Step { next: m.again_in(State::ScriptData), emitted: Some(TokenView::Char('<')) }
        },
        State::ScriptDataEndTagName => if c == '>' {
            m.emit_latest()
        } else if spec_is_ascii_alphabetic(c) {
            TokenizerModel { buf: m.buf.push(c), ..m }.map_latest(
                |t: TokenView| t.with_tag_char(spec_to_ascii_lowercase(c)),
            ).silent()
        } else {
            TokenizerModel {
                state: State::TemporaryBuffer,
                buf: (seq!['<', '/'] + m.buf).push(c),
                ..m
            }.silent()
        },
        State::TemporaryBuffer => flush(m),
    }
}

/// One turn in `TemporaryBuffer`: the first of the characters held back is
/// handed out as a `Char` token; when none is left, the machine returns to
/// `ScriptData`. Nothing is read.
pub open spec fn flush(m: TokenizerModel) -> Step {
    if m.buf.len() == 0 {
        m.to(State::ScriptData).silent()
    } else {
        Step {
            next: TokenizerModel { buf: m.buf.drop_first(), ..m },
            emitted: Some(TokenView::Char(m.buf[0])),
        }
    }
}

/// One turn of the tokenizer's loop. In `TemporaryBuffer` the characters
/// held back are handed out ([`flush`]). Otherwise, if nothing is left to
/// read, the turn yields `Eof` and marks the tokenizer as finished; else it
/// is a [`transition`] on the next character.
pub open spec fn iterate(m: TokenizerModel) -> Step {
    if m.state == State::TemporaryBuffer {
        flush(m)
    } else if m.exhausted() {
        Step { next: TokenizerModel { finished: true, ..m }, emitted: Some(TokenView::Eof) }
    } else {
        transition(m.after_read(), m.current())
    }
}

/// A bound on the turns that the machine can take without reading a new
/// character: they flush the characters held back, handle a character that
/// is read again, or hand out `Eof`.
pub open spec fn turns_without_reading(m: TokenizerModel) -> nat {
    let turns: nat = if m.state == State::TemporaryBuffer {
        2 + m.buf.len()
    } else if !m.reconsume {
        0
    } else {
        match m.state {
            State::AfterAttributeValueQuoted => 5,
            State::BeforeAttributeName => 4,
            State::AttributeName => if ends_attribute_name(m.current()) {
                3
            } else {
                1
            },
            State::AfterAttributeName => 2,
            State::BeforeAttributeValue => 2,
            State::TagOpen => 2,
            State::EndTagOpen => 2,
            State::ScriptDataLessThanSign => 2,
            State::ScriptDataEndTagOpen => 2,
            State::ScriptDataEndTagName => if m.current() == '>' || spec_is_ascii_alphabetic(
                m.current(),
            ) {
                1
            } else {
                6 + m.buf.len()
            },
            _ => 1,
        }
    };
    2 * turns + if m.finished {
        0nat
    } else {
        1nat
    }
}

/// Every turn of the loop either reads a character or uses up one of the
/// turns that it can take without reading.
pub proof fn lemma_iterate_decreases(m: TokenizerModel)
    requires
        m.pos <= m.input.len(),
    ensures
        ({
            let n = iterate(m).next;
            &&& n.input == m.input
            &&& m.pos <= n.pos <= m.input.len()
            &&& n.pos == m.pos && (!m.finished || iterate(m).emitted != Some(TokenView::Eof))
                ==> turns_without_reading(n) < turns_without_reading(m)
            &&& iterate(m).emitted != Some(TokenView::Eof) ==> n.finished == m.finished
        }),
{
}

/// The turns of the loop up to and including the first that emits a token.
pub open spec fn run(m: TokenizerModel) -> Step
    decreases m.input.len() - m.pos, turns_without_reading(m),
{
    if m.pos > m.input.len() {
        Step { next: TokenizerModel { finished: true, ..m }, emitted: Some(TokenView::Eof) }
    } else {
        let s = iterate(m);
        if s.emitted is Some {
            s
        } else {
            proof {
                lemma_iterate_decreases(m);
            }
            run(s.next)
        }
    }
}

/// What one call of [`HtmlTokenizer::next`] does. An empty text has no
/// token at all. Of any other text the tokens are handed out one by one,
/// then `Eof` once, and nothing after that.
pub open spec fn spec_next(m: TokenizerModel) -> Step {
    if m.finished || m.input.len() == 0 {
        Step { next: m, emitted: None }
    } else {
        run(m)
    }
}

/// Every token that the tokenizer yields from `m` on, in order.
pub open spec fn tokens(m: TokenizerModel) -> Seq<TokenView>
    decreases m.input.len() - m.pos, turns_without_reading(m),
{
    let s = spec_next(m);
    match s.emitted {
        None => Seq::empty(),
        Some(t) => {
            proof {
                lemma_next_decreases(m);
            }
            seq![t] + tokens(s.next)
        },
    }
}

/// The turns of [`run`] keep the input, never move the position back, keep
/// the invariant, and use up the measure by which [`tokens`] terminates.
pub proof fn lemma_run_progress(m: TokenizerModel)
    requires
        m.pos <= m.input.len(),
    ensures
        ({
            let n = run(m).next;
            &&& run(m).emitted is Some
            &&& n.input == m.input
            &&& m.pos <= n.pos <= m.input.len()
            &&& !m.finished && n.pos == m.pos ==> turns_without_reading(n)
                < turns_without_reading(m)
            &&& m.wf() ==> n.wf() && is_well_formed(run(m).emitted)
        }),
    decreases m.input.len() - m.pos, turns_without_reading(m),
{
    lemma_iterate_decreases(m);
    if m.wf() {
        lemma_iterate_wf(m);
    }
    let s = iterate(m);
    if s.emitted is None {
        lemma_run_progress(s.next);
    }
}

/// A call that yields a token leaves less to do than there was before.
pub proof fn lemma_next_decreases(m: TokenizerModel)
    ensures
        ({
            let n = spec_next(m).next;
            &&& n.input == m.input
            &&& spec_next(m).emitted is Some ==> m.pos <= n.pos && (m.pos <= m.input.len()
                ==> n.pos <= m.input.len()) && (n.pos == m.pos ==> turns_without_reading(n)
                < turns_without_reading(m))
            &&& m.wf() ==> n.wf() && is_well_formed(spec_next(m).emitted)
        }),
{
    if m.pos <= m.input.len() {
        lemma_run_progress(m);
    }
}

/// One turn of the loop keeps the invariant of the machine, and what it
/// hands out is well formed.
pub proof fn lemma_iterate_wf(m: TokenizerModel)
    requires
        m.wf(),
    ensures
        iterate(m).next.wf(),
        is_well_formed(iterate(m).emitted),
        m.state != State::TemporaryBuffer && !m.exhausted() ==> m.after_read().ready_for(
            m.current(),
        ),
{
    if m.state != State::TemporaryBuffer && !m.exhausted() {
        let c = m.current();
        let r = m.after_read();
        assert(r.ready_for(c));
        lemma_transition_wf(r, c);
    }
}

/// A transition keeps the invariant of the machine.
pub proof fn lemma_transition_wf(m: TokenizerModel, c: char)
    requires
        m.ready_for(c),
    ensures
        transition(m, c).next.wf(),
        is_well_formed(transition(m, c).emitted),
{
    let lc = spec_to_ascii_lowercase(c);
    match m.latest {
        Some(t) => {
            assert(has_no_ascii_uppercase(t.with_tag_char(lc).tag_name()));
            lemma_named_are_named(t.attrs());
            lemma_named_are_named(t.with_self_closing().attrs());
        },
        None => {},
    }
}

/// Attributes are named: every attribute of a start tag that the tokenizer
/// yields has a name that is not empty.
pub proof fn lemma_attributes_are_named(m: TokenizerModel, i: int)
    requires
        m.wf(),
        0 <= i < tokens(m).len(),
    ensures
        all_named(tokens(m)[i].attrs()),
    decreases i,
{
    let s = spec_next(m);
    lemma_next_decreases(m);
    assert(tokens(m) =~= seq![s.emitted->0] + tokens(s.next));
    if i > 0 {
        lemma_attributes_are_named(s.next, i - 1);
    }
}

/// Every character of `s` is an ASCII letter.
pub open spec fn all_letters(s: Seq<char>) -> bool {
    forall|i: int| 0 <= i < s.len() ==> spec_is_ascii_alphabetic(#[trigger] s[i])
}

/// The characters `text` stand in `input` from position `at` on.
pub open spec fn stands_at(input: Seq<char>, at: int, text: Seq<char>) -> bool {
    &&& 0 <= at
    &&& at + text.len() <= input.len()
    &&& forall|i: int| 0 <= i < text.len() ==> input[at + i] == #[trigger] text[i]
}

/// In `TagName`, letters up to a `>` complete the name: when the letters
/// `rest` and then `>` are next to be read, the tag under construction is
/// handed out with the lowercased letters appended to its name, and the
/// tokenizer stands behind the `>` in `Data`.
pub proof fn lemma_tag_name_completes(m: TokenizerModel, rest: Seq<char>)
    requires
        m.wf(),
        m.state == State::TagName,
        all_letters(rest),
        stands_at(m.input, m.pos - (if m.reconsume { 1int } else { 0int }), rest + seq!['>']),
    ensures
        run(m).emitted == Some(
            match m.latest->0 {
                TokenView::StartTag { tag, self_closing, attributes } => TokenView::StartTag {
                    tag: tag + lowercased(rest),
                    self_closing,
                    attributes: named(attributes),
                },
                TokenView::EndTag { tag } => TokenView::EndTag { tag: tag + lowercased(rest) },
                other => other,
            },
        ),
        run(m).next == (TokenizerModel {
            state: State::Data,
            pos: (m.pos - (if m.reconsume { 1int } else { 0int }) + rest.len() + 1) as nat,
            reconsume: false,
            latest: None,
            ..m
        }),
    decreases rest.len(),
{
    let at = m.pos - (if m.reconsume { 1int } else { 0int });
    let text = rest + seq!['>'];
    assert(m.input[at + 0] == text[0]);
    let s = iterate(m);
    if rest.len() == 0 {
        assert(text[0] == '>');
        assert(lowercased(rest) =~= Seq::empty());
        assert(m.latest->0.tag_name() + lowercased(rest) =~= m.latest->0.tag_name());
    } else {
        let c = rest[0];
        assert(text[0] == c);
        assert(spec_is_ascii_alphabetic(c));
        assert(s.emitted is None);
        let n = s.next;
        lemma_iterate_wf(m);
        let tail = rest.skip(1);
        assert forall|i: int| 0 <= i < tail.len() implies spec_is_ascii_alphabetic(
            #[trigger] tail[i],
        ) by {
            assert(tail[i] == rest[i + 1]);
        }
        assert(stands_at(n.input, n.pos as int, tail + seq!['>'])) by {
            assert forall|i: int| 0 <= i < (tail + seq!['>']).len() implies n.input[n.pos + i]
                == #[trigger] (tail + seq!['>'])[i] by {
                assert(text[i + 1] == (tail + seq!['>'])[i]);
                assert(m.input[at + (i + 1)] == text[i + 1]);
            }
        }
        lemma_tag_name_completes(n, tail);
        lemma_lowercased_front(rest);
        let lc = spec_to_ascii_lowercase(c);
        assert(m.latest->0.tag_name().push(lc) + lowercased(tail) =~= m.latest->0.tag_name()
            + lowercased(rest));
    }
}

/// The lowercased form of a sequence starts with the lowercased form of
/// its first character.
pub proof fn lemma_lowercased_front(s: Seq<char>)
    requires
        s.len() > 0,
    ensures
        lowercased(s) == seq![spec_to_ascii_lowercase(s[0])] + lowercased(s.skip(1)),
{
    crate::text::lemma_lowercased(s);
    crate::text::lemma_lowercased(s.skip(1));
    assert(lowercased(s) =~= seq![spec_to_ascii_lowercase(s[0])] + lowercased(s.skip(1)));
}

/// A plain tag is one token: in `Data`, `<` or `</`, a name of ASCII
/// letters and `>` yield a start tag or an end tag with the lowercased
/// name, no attributes and no self-closing flag, and leave the tokenizer
/// behind the `>` in `Data`.
pub proof fn lemma_plain_tag(m: TokenizerModel, closing: bool, name: Seq<char>)
    requires
        m.wf(),
        m.state == State::Data,
        !m.reconsume,
        !m.finished,
        name.len() > 0,
        all_letters(name),
        stands_at(
            m.input,
            m.pos as int,
            (if closing {
                seq!['<', '/']
            } else {
                seq!['<']
            }) + name + seq!['>'],
        ),
    ensures
        spec_next(m).emitted == Some(
            if closing {
                TokenView::EndTag { tag: lowercased(name) }
            } else {
                TokenView::StartTag {
                    tag: lowercased(name),
                    self_closing: false,
                    attributes: Seq::empty(),
                }
            },
        ),
        spec_next(m).next == (TokenizerModel {
            pos: m.pos + (if closing { 2nat } else { 1nat }) + name.len() + 1,
            latest: None,
            ..m
        }),
{
    let open = if closing {
        seq!['<', '/']
    } else {
        seq!['<']
    };
    let text = open + name + seq!['>'];
    let p = m.pos as int;
    assert(m.input[p + 0] == text[0]);
    assert(text[0] == '<');
    let k = open.len() as int;
    assert(text[k] == name[0]);
    assert(m.input[p + k] == text[k]);
    assert(spec_is_ascii_alphabetic(name[0]));
    // `<` leads to `TagOpen`.
    let s1 = iterate(m);
    assert(s1.emitted is None && s1.next == TokenizerModel { pos: m.pos + 1, ..m }.to(
        State::TagOpen,
    ));
    // A `/` leads on to `EndTagOpen`.
    let before_name = if closing {
        assert(text[1] == '/');
        assert(m.input[p + 1] == text[1]);
        let s2 = iterate(s1.next);
        assert(s2.emitted is None && s2.next == TokenizerModel { pos: m.pos + 2, ..m }.to(
            State::EndTagOpen,
        ));
        s2.next
    } else {
        s1.next
    };
    // The first letter starts the tag and is read again in `TagName`.
    let s3 = iterate(before_name);
    let fresh = if closing {
        empty_end_tag()
    } else {
        empty_start_tag()
    };
    assert(s3.emitted is None);
    let in_name = s3.next;
    assert(in_name == TokenizerModel {
        pos: (p + k + 1) as nat,
        state: State::TagName,
        reconsume: true,
        latest: Some(fresh),
        ..m
    });
    assert(in_name.wf()) by {
        assert(has_no_ascii_uppercase(fresh.tag_name()));
    }
    assert(stands_at(in_name.input, in_name.pos - 1, name + seq!['>'])) by {
        assert forall|i: int| 0 <= i < (name + seq!['>']).len() implies in_name.input[in_name.pos
            - 1 + i] == #[trigger] (name + seq!['>'])[i] by {
            assert(text[k + i] == (name + seq!['>'])[i]);
            assert(m.input[p + (k + i)] == text[k + i]);
        }
    }
    lemma_tag_name_completes(in_name, name);
    assert(Seq::<char>::empty() + lowercased(name) =~= lowercased(name));
    assert(named(Seq::<AttributeView>::empty()) =~= Seq::<AttributeView>::empty());
    assert(run(before_name) == run(in_name));
    assert(run(s1.next) == run(before_name));
    assert(run(m) == run(s1.next));
}

/// The model after `n` calls of [`HtmlTokenizer::next`].
pub open spec fn after_calls(m: TokenizerModel, n: nat) -> TokenizerModel
    decreases n,
{
    if n == 0 {
        m
    } else {
        after_calls(spec_next(m).next, (n - 1) as nat)
    }
}

/// The tokenizer yields a finite sequence: call number `n` yields
/// `tokens(m)[n]` as long as `n` is below the length of `tokens(m)`, and the
/// call after the last token yields `None`.
pub proof fn lemma_tokens_are_the_calls(m: TokenizerModel, n: nat)
    requires
        n <= tokens(m).len(),
    ensures
        n < tokens(m).len() ==> spec_next(after_calls(m, n)).emitted == Some(tokens(m)[n as int]),
        n == tokens(m).len() ==> spec_next(after_calls(m, n)).emitted is None,
    decreases n,
{
    let s = spec_next(m);
    if n > 0 {
        lemma_next_decreases(m);
        assert(tokens(m) =~= seq![s.emitted->0] + tokens(s.next));
        lemma_tokens_are_the_calls(s.next, (n - 1) as nat);
    } else if s.emitted is Some {
        assert(tokens(m) =~= seq![s.emitted->0] + tokens(s.next));
    }
}

/// Text is handed out character by character, and `Eof` ends it: in the
/// `Data` state of a text that is not empty, when no `<` is left in the
/// input, the remaining tokens are exactly the remaining characters, one
/// `Char` token each, and then `Eof`.
pub proof fn lemma_text_yields_its_chars(m: TokenizerModel)
    requires
        m.wf(),
        m.state == State::Data,
        !m.reconsume,
        !m.finished,
        m.input.len() > 0,
        forall|j: int| m.pos <= j < m.input.len() ==> m.input[j] != '<',
    ensures
        tokens(m).len() == m.input.len() - m.pos + 1,
        forall|k: int|
            0 <= k < m.input.len() - m.pos ==> #[trigger] tokens(m)[k] == TokenView::Char(
                m.input[m.pos + k],
            ),
        tokens(m).last() == TokenView::Eof,
    decreases m.input.len() - m.pos,
{
    let s = spec_next(m);
    if m.pos < m.input.len() {
        assert(s.emitted == Some(TokenView::Char(m.input[m.pos as int])));
        assert(s.next == TokenizerModel { pos: m.pos + 1, ..m });
        lemma_text_yields_its_chars(s.next);
        assert(tokens(m) == seq![s.emitted->0] + tokens(s.next));
        assert forall|k: int| 0 <= k < m.input.len() - m.pos implies #[trigger] tokens(m)[k]
            == TokenView::Char(m.input[m.pos + k]) by {
            if k > 0 {
                assert(tokens(m)[k] == tokens(s.next)[k - 1]);
            }
        }
        assert(tokens(m).last() == tokens(s.next).last());
    } else {
        assert(s.emitted == Some(TokenView::Eof));
        assert(s.next.finished);
        assert(tokens(s.next) =~= Seq::<TokenView>::empty());
        assert(tokens(m) =~= seq![TokenView::Eof]);
    }
}

/// A document without `<` is text: from the start, its tokens are exactly
/// its characters, one `Char` token each, and then `Eof`. The empty
/// document has no token.
pub proof fn lemma_plain_text_document(input: Seq<char>)
    requires
        forall|j: int| 0 <= j < input.len() ==> input[j] != '<',
    ensures
        input.len() == 0 ==> tokens(TokenizerModel::initial(input)).len() == 0,
        input.len() > 0 ==> tokens(TokenizerModel::initial(input)).len() == input.len() + 1
            && tokens(TokenizerModel::initial(input)).last() == TokenView::Eof,
        forall|k: int|
            0 <= k < input.len() ==> #[trigger] tokens(TokenizerModel::initial(input))[k]
                == TokenView::Char(input[k]),
{
    if input.len() > 0 {
        lemma_text_yields_its_chars(TokenizerModel::initial(input));
    }
}

/// `Eof` marks the end: the turn that yields it leaves the tokenizer
/// finished.
pub proof fn lemma_run_eof(m: TokenizerModel)
    requires
        m.wf(),
        run(m).emitted == Some(TokenView::Eof),
    ensures
        run(m).next.finished,
    decreases m.input.len() - m.pos, turns_without_reading(m),
{
    lemma_iterate_decreases(m);
    lemma_iterate_wf(m);
    let s = iterate(m);
    if s.emitted is None {
        lemma_run_eof(s.next);
    } else if m.state != State::TemporaryBuffer && !m.exhausted() {
        assert(transition(m.after_read(), m.current()).emitted != Some(TokenView::Eof));
    }
}

/// `Eof` comes once at most, and last: behind an `Eof` the tokenizer yields
/// nothing.
pub proof fn lemma_eof_is_last(m: TokenizerModel, i: int)
    requires
        m.wf(),
        0 <= i < tokens(m).len(),
        tokens(m)[i] == TokenView::Eof,
    ensures
        i == tokens(m).len() - 1,
    decreases i,
{
    let s = spec_next(m);
    lemma_next_decreases(m);
    assert(tokens(m) =~= seq![s.emitted->0] + tokens(s.next));
    if i > 0 {
        lemma_eof_is_last(s.next, i - 1);
    } else {
        lemma_run_eof(m);
        assert(spec_next(s.next).emitted is None);
        assert(tokens(s.next) =~= Seq::<TokenView>::empty());
    }
}

/// `Eof` ends every text that is not empty: unless the tokenizer is
/// finished or the text is empty, its last token is `Eof`.
pub proof fn lemma_eof_ends_the_tokens(m: TokenizerModel)
    requires
        m.wf(),
        !m.finished,
        m.input.len() > 0,
    ensures
        tokens(m).len() > 0,
        tokens(m).last() == TokenView::Eof,
    decreases m.input.len() - m.pos, turns_without_reading(m),
{
    let s = spec_next(m);
    lemma_next_decreases(m);
    lemma_run_progress(m);
    lemma_run_finished(m);
    assert(tokens(m) =~= seq![s.emitted->0] + tokens(s.next));
    if s.emitted != Some(TokenView::Eof) {
        lemma_eof_ends_the_tokens(s.next);
    } else {
        lemma_run_eof(m);
        assert(tokens(s.next) =~= Seq::<TokenView>::empty());
    }
}

/// Only the turn that yields `Eof` marks the tokenizer as finished.
pub proof fn lemma_run_finished(m: TokenizerModel)
    requires
        m.pos <= m.input.len(),
    ensures
        run(m).emitted != Some(TokenView::Eof) ==> run(m).next.finished == m.finished,
    decreases m.input.len() - m.pos, turns_without_reading(m),
{
    lemma_iterate_decreases(m);
    let s = iterate(m);
    if s.emitted is None {
        lemma_run_finished(s.next);
    }
}

/// A bound on the tokens that are still to come: one for each character
/// that is left to read, one for a character that is to be read again, one
/// for each character that is held back, and one for `Eof`.
pub open spec fn tokens_left(m: TokenizerModel) -> int {
    let held: int = match m.state {
        State::ScriptDataLessThanSign => 1,
        State::ScriptDataEndTagOpen => m.buf.len() as int + 2,
        State::ScriptDataEndTagName => m.buf.len() as int + 2,
        State::TemporaryBuffer => m.buf.len() as int,
        _ => 0,
    };
    (m.input.len() - m.pos) + held + (if m.reconsume {
        1int
    } else {
        0int
    }) + (if m.finished {
        0int
    } else {
        1int
    })
}

/// A turn of the loop that hands out a token lowers the bound by one at
/// least, and no turn raises it.
pub proof fn lemma_iterate_bound(m: TokenizerModel)
    requires
        m.pos <= m.input.len(),
        !m.finished,
    ensures
        tokens_left(iterate(m).next) + (if iterate(m).emitted is Some {
            1int
        } else {
            0int
        }) <= tokens_left(m),
{
}

/// A call that hands out a token lowers the bound by one at least.
pub proof fn lemma_run_bound(m: TokenizerModel)
    requires
        m.pos <= m.input.len(),
        !m.finished,
    ensures
        tokens_left(run(m).next) + 1 <= tokens_left(m),
    decreases m.input.len() - m.pos, turns_without_reading(m),
{
    lemma_iterate_decreases(m);
    lemma_iterate_bound(m);
    let s = iterate(m);
    if s.emitted is None {
        lemma_run_bound(s.next);
    }
}

/// The sequence of tokens is finite and short: no more tokens come than
/// [`tokens_left`] says.
pub proof fn lemma_tokens_bound(m: TokenizerModel)
    requires
        m.pos <= m.input.len(),
    ensures
        m.finished ==> tokens(m).len() == 0,
        !m.finished ==> tokens(m).len() <= tokens_left(m),
    decreases m.input.len() - m.pos, turns_without_reading(m),
{
    let s = spec_next(m);
    if s.emitted is Some {
        lemma_next_decreases(m);
        lemma_run_bound(m);
        assert(tokens(m) =~= seq![s.emitted->0] + tokens(s.next));
        lemma_tokens_bound(s.next);
    }
}

/// A text of `n` characters has `n + 1` tokens at most: each token but
/// `Eof` takes a character at least.
pub proof fn lemma_token_count(input: Seq<char>)
    ensures
        tokens(TokenizerModel::initial(input)).len() <= input.len() + 1,
{
    lemma_tokens_bound(TokenizerModel::initial(input));
}

/// Tag names are lowercase: the name of a tag that the tokenizer yields
/// holds no ASCII uppercase letter, so a name made of ASCII letters alone
/// is made of ASCII lowercase letters alone.
pub proof fn lemma_tag_names_are_lowercase(m: TokenizerModel, i: int)
    requires
        m.wf(),
        0 <= i < tokens(m).len(),
    ensures
        has_no_ascii_uppercase(tokens(m)[i].tag_name()),
        (forall|k: int|
            0 <= k < tokens(m)[i].tag_name().len() ==> spec_is_ascii_alphabetic(
                #[trigger] tokens(m)[i].tag_name()[k],
            )) ==> crate::text::is_ascii_lowercase_word(tokens(m)[i].tag_name()),
    decreases i,
{
    let s = spec_next(m);
    lemma_next_decreases(m);
    assert(tokens(m) =~= seq![s.emitted->0] + tokens(s.next));
    if i > 0 {
        lemma_tag_names_are_lowercase(s.next, i - 1);
    }
}

/// The token as it is handed out: a start tag without the attributes that
/// have no name.
pub fn commit(token: HTMLToken) -> (r: HTMLToken)
    ensures
        r@ == token@.committed(),
{
    match token {
        HTMLToken::StartTag { tag, self_closing, attributes } => {
            let mut kept: Vec<Attribute> = Vec::new();
            let mut i: usize = 0;
            assert(attribute_views(attributes@).take(0) =~= Seq::empty());
            while i < attributes.len()
                invariant
                    i <= attributes.len(),
                    attribute_views(kept@) == named(attribute_views(attributes@).take(i as int)),
                decreases attributes.len() - i,
            {
                let ghost before = attribute_views(attributes@).take(i as int);
                let ghost after = attribute_views(attributes@).take(i + 1);
                let ghost old_kept = attribute_views(kept@);
                proof {
                    assert(after.drop_last() =~= before);
                    assert(after.last() == attributes@[i as int]@);
                }
                if attributes[i].has_name() {
                    kept.push(attributes[i].duplicate());
                    assert(attribute_views(kept@) =~= old_kept.push(attributes@[i as int]@));
                }
                i += 1;
            }
            assert(attribute_views(attributes@).take(i as int) =~= attribute_views(attributes@));
            HTMLToken::StartTag { tag, self_closing, attributes: kept }
        },
        other => other,
    }
}

/// The tokenizer: the characters of a document and the state of the
/// machine that reads them.
///
/// A tokenizer is made by [`HtmlTokenizer::new`] and advanced by
/// [`HtmlTokenizer::next`]; both keep [`TokenizerModel::wf`], so every
/// tokenizer that a caller can hold satisfies it.
#[derive(Debug, Clone, PartialEq, Eq)]
pub struct HtmlTokenizer {
    state: State,
    pos: usize,
    reconsume: bool,
    latest_token: Option<HTMLToken>,
    input: Vec<char>,
    buf: Vec<char>,
    finished: bool,
}

impl View for HtmlTokenizer {
    type V = TokenizerModel;

    closed spec fn view(&self) -> TokenizerModel {
        TokenizerModel {
            state: self.state,
            pos: self.pos as nat,
            reconsume: self.reconsume,
            latest: token_view(self.latest_token),
            input: self.input@,
            buf: self.buf@,
            finished: self.finished,
        }
    }
}

impl HtmlTokenizer {
    /// A tokenizer at the start of `html`.
    pub fn new(html: String) -> (t: HtmlTokenizer)
        ensures
            t@ == TokenizerModel::initial(html@),
            t@.wf(),
    {
        HtmlTokenizer {
            state: State::Data,
            pos: 0,
            reconsume: false,
            latest_token: None,
            input: crate::text::chars_of(html.as_str()),
            buf: Vec::new(),
            finished: false,
        }
    }

    /// Moves the machine into the state in which the content of a script
    /// element is read, as a consumer does after a `script` start tag.
    pub fn enter_script_data(&mut self)
        requires
            old(self)@.wf(),
        ensures
            final(self)@ == old(self)@.to(State::ScriptData),
            final(self)@.wf(),
    {
        self.state = State::ScriptData;
    }

    /// Whether nothing is left to read.
    fn is_eof(&self) -> (r: bool)
        ensures
            r == self@.exhausted(),
    {
        !self.reconsume && self.pos >= self.input.len()
    }

    /// Reads the next character and moves on.
    fn consume_next_input(&mut self) -> (c: char)
        requires
            !old(self)@.reconsume,
            old(self)@.pos < old(self)@.input.len(),
        ensures
            c == old(self)@.current(),
            final(self)@ == old(self)@.after_read(),
    {
        assert(self.pos < self.input.len());
        let c = self.input[self.pos];
        self.pos += 1;
        c
    }

    /// Reads the last character once more.
    fn reconsume_input(&mut self) -> (c: char)
        requires
            old(self)@.reconsume,
            1 <= old(self)@.pos <= old(self)@.input.len(),
        ensures
            c == old(self)@.current(),
            final(self)@ == old(self)@.after_read(),
    {
        self.reconsume = false;
        self.input[self.pos - 1]
    }

    /// Starts an empty start tag (`start_tag_token`) or end tag.
    fn create_tag(&mut self, start_tag_token: bool)
        ensures
            final(self)@ == old(self)@.with_latest(
                Some(
                    if start_tag_token {
                        empty_start_tag()
                    } else {
                        empty_end_tag()
                    },
                ),
            ),
    {
        if start_tag_token {
            let attributes: Vec<Attribute> = Vec::new();
            assert(attribute_views(attributes@) =~= Seq::empty());
            self.latest_token = Some(
                HTMLToken::StartTag { tag: String::new(), self_closing: false, attributes },
            );
        } else {
            self.latest_token = Some(HTMLToken::EndTag { tag: String::new() });
        }
    }

    /// Appends `c` to the name of the tag under construction.
    fn append_tag_name(&mut self, c: char)
        requires
            old(self)@.latest is Some,
            old(self)@.latest->0.is_tag(),
        ensures
            final(self)@ == old(self)@.map_latest(|t: TokenView| t.with_tag_char(c)),
    {
        match &mut self.latest_token {
            Some(HTMLToken::StartTag { tag, .. }) => {
                push_char(tag, c);
            },
            Some(HTMLToken::EndTag { tag }) => {
                push_char(tag, c);
            },
            _ => {},
        }
    }

    /// Hands out the tag under construction.
    fn take_latest_token(&mut self) -> (t: Option<HTMLToken>)
        requires
            old(self)@.latest is Some,
        ensures
            t is Some,
            token_view(t) == old(self)@.latest,
            final(self)@ == old(self)@.with_latest(None),
    {
        self.latest_token.take()
    }

    /// Whether the tag under construction is a start tag.
    fn builds_start_tag(&self) -> (r: bool)
        ensures
            r == self@.builds_start_tag(),
    {
        match &self.latest_token {
            Some(HTMLToken::StartTag { .. }) => true,
            _ => false,
        }
    }

    /// Appends an empty attribute to the start tag under construction.
    fn start_new_attribute(&mut self)
        requires
            old(self)@.builds_start_tag(),
        ensures
            final(self)@ == old(self)@.map_latest(|t: TokenView| t.with_new_attribute()),
    {
        match &mut self.latest_token {
            Some(HTMLToken::StartTag { attributes, .. }) => {
                let ghost before = attributes@;
                attributes.push(Attribute::new());
                assert(attribute_views(attributes@) =~= attribute_views(before).push(
                    AttributeView { name: Seq::empty(), value: Seq::empty() },
                ));
            },
            _ => {},
        }
    }

    /// Appends `c` to the name (`is_name`) or the value of the last
    /// attribute of the start tag under construction.
    fn append_attribute(&mut self, c: char, is_name: bool)
        requires
            old(self)@.builds_start_tag(),
            old(self)@.attribute_count() > 0,
        ensures
            final(self)@ == old(self)@.map_latest(
                |t: TokenView| t.with_attribute_char(c, is_name),
            ),
    {
        match &mut self.latest_token {
            Some(HTMLToken::StartTag { attributes, .. }) => {
                let ghost before = attributes@;
                let len = attributes.len();
                attributes[len - 1].add_char(c, is_name);
                assert(attribute_views(attributes@) =~= attribute_views(before).update(
                    len - 1,
                    attributes@[len - 1]@,
                ));
            },
            _ => {},
        }
    }

    /// Marks the start tag under construction as self-closing.
    fn set_self_closing_flag(&mut self)
        requires
            old(self)@.builds_start_tag(),
        ensures
            final(self)@ == old(self)@.map_latest(|t: TokenView| t.with_self_closing()),
    {
        match &mut self.latest_token {
            Some(HTMLToken::StartTag { self_closing, .. }) => {
                *self_closing = true;
            },
            _ => {},
        }
    }

    /// Returns to `Data` and hands out the tag under construction, without
    /// the attributes that have no name.
    fn emit_latest(&mut self) -> (t: Option<HTMLToken>)
        requires
            old(self)@.latest is Some,
        ensures
            final(self)@ == old(self)@.emit_latest().next,
            token_view(t) == old(self)@.emit_latest().emitted,
    {
        self.state = State::Data;
        match self.take_latest_token() {
            Some(token) => Some(commit(token)),
            None => None,
        }
    }

    /// A step in `Data` or in one of the states that read the name of a tag.
    fn step_in_tag(&mut self, c: char) -> (t: Option<HTMLToken>)
        requires
            old(self)@.ready_for(c),
            old(self)@.state == State::Data
                || old(self)@.state == State::TagOpen
                || old(self)@.state == State::EndTagOpen
                || old(self)@.state == State::TagName
                || old(self)@.state == State::SelfClosingStartTag,
        ensures
            final(self)@ == transition(old(self)@, c).next,
            token_view(t) == transition(old(self)@, c).emitted,
    {
        match self.state {
            State::Data => {
                if c == '<' {
                    self.state = State::TagOpen;
                    return None;
                }
                Some(HTMLToken::Char(c))
            },
            State::TagOpen => {
                if c == '/' {
                    self.state = State::EndTagOpen;
                    return None;
                }
                if is_ascii_alphabetic(c) {
                    self.reconsume = true;
                    self.state = State::TagName;
                    self.create_tag(true);
                    return None;
                }
                self.reconsume = true;
                self.state = State::Data;
                None
            },
            State::EndTagOpen => {
                if is_ascii_alphabetic(c) {
                    self.reconsume = true;
                    self.state = State::TagName;
                    self.create_tag(false);
                }
                None
            },
            State::TagName => {
                if c == ' ' {
                    self.state = State::BeforeAttributeName;
                    return None;
                }
                if c == '/' {
                    self.state = State::SelfClosingStartTag;
                    return None;
                }
                if c == '>' {
                    return self.emit_latest();
                }
                self.append_tag_name(to_ascii_lowercase(c));
                None
            },
            State::SelfClosingStartTag => {
                if c == '>' {
                    if self.builds_start_tag() {
                        self.set_self_closing_flag();
                    }
                    return self.emit_latest();
                }
                None
            },
            _ => None,
        }
    }

    /// A step in one of the states that read an attribute.
    fn step_in_attribute(&mut self, c: char) -> (t: Option<HTMLToken>)
        requires
            old(self)@.ready_for(c),
            old(self)@.state == State::BeforeAttributeName
                || old(self)@.state == State::AttributeName
                || old(self)@.state == State::AfterAttributeName
                || old(self)@.state == State::BeforeAttributeValue
                || old(self)@.state == State::AttributeValueDoubleQuoted
                || old(self)@.state == State::AttributeValueSingleQuoted
                || old(self)@.state == State::AttributeValueUnquoted
                || old(self)@.state == State::AfterAttributeValueQuoted,
        ensures
            final(self)@ == transition(old(self)@, c).next,
            token_view(t) == transition(old(self)@, c).emitted,
    {
        match self.state {
            State::BeforeAttributeName => {
                if c == '/' || c == '>' {
                    self.reconsume = true;
                    self.state = State::AfterAttributeName;
                    return None;
                }
                self.reconsume = true;
                self.state = State::AttributeName;
                if self.builds_start_tag() {
                    self.start_new_attribute();
                }
                None
            },
            State::AttributeName => {
                if c == ' ' || c == '/' || c == '>' {
                    self.reconsume = true;
                    self.state = State::AfterAttributeName;
                    return None;
                }
                if c == '=' {
                    self.state = State::BeforeAttributeValue;
                    return None;
                }
                if self.builds_start_tag() {
                    self.append_attribute(to_ascii_lowercase(c), true);
                }
                None
            },
            State::AfterAttributeName => {
                if c == ' ' {
                    return None;
                }
                if c == '/' {
                    self.state = State::SelfClosingStartTag;
                    return None;
                }
                if c == '=' {
                    self.state = State::BeforeAttributeValue;
                    return None;
                }
                if c == '>' {
                    return self.emit_latest();
                }
                self.reconsume = true;
                self.state = State::AttributeName;
                if self.builds_start_tag() {
                    self.start_new_attribute();
                }
                None
            },
            State::BeforeAttributeValue => {
                if c == ' ' {
                    return None;
                }
                if c == '"' {
                    self.state = State::AttributeValueDoubleQuoted;
                    return None;
                }
                if c == '\'' {
                    self.state = State::AttributeValueSingleQuoted;
                    return None;
                }
                self.reconsume = true;
                self.state = State::AttributeValueUnquoted;
                None
            },
            State::AttributeValueDoubleQuoted => {
                if c == '"' {
                    self.state = State::AfterAttributeValueQuoted;
                    return None;
                }
                if self.builds_start_tag() {
                    self.append_attribute(c, false);
                }
                None
            },
            State::AttributeValueSingleQuoted => {
                if c == '\'' {
                    self.state = State::AfterAttributeValueQuoted;
                    return None;
                }
                if self.builds_start_tag() {
                    self.append_attribute(c, false);
                }
                None
            },
            State::AttributeValueUnquoted => {
                if c == ' ' {
                    self.state = State::BeforeAttributeName;
                    return None;
                }
                if c == '>' {
                    return self.emit_latest();
                }
                if self.builds_start_tag() {
                    self.append_attribute(c, false);
                }
                None
            },
            State::AfterAttributeValueQuoted => {
                if c == ' ' {
                    self.state = State::BeforeAttributeName;
                    return None;
                }
                if c == '/' {
                    self.state = State::SelfClosingStartTag;
                    return None;
                }
                if c == '>' {
                    return self.emit_latest();
                }
                self.reconsume = true;
                self.state = State::BeforeAttributeName;
                None
            },
            _ => None,
        }
    }

    /// A step in one of the states that read the content of a script.
    fn step_in_script(&mut self, c: char) -> (t: Option<HTMLToken>)
        requires
            old(self)@.ready_for(c),
            old(self)@.state == State::ScriptData
                || old(self)@.state == State::ScriptDataLessThanSign
                || old(self)@.state == State::ScriptDataEndTagOpen
                || old(self)@.state == State::ScriptDataEndTagName
                || old(self)@.state == State::TemporaryBuffer,
        ensures
            final(self)@ == transition(old(self)@, c).next,
            token_view(t) == transition(old(self)@, c).emitted,
    {
        match self.state {
            State::ScriptData => {
                if c == '<' {
                    self.state = State::ScriptDataLessThanSign;
                    return None;
                }
                Some(HTMLToken::Char(c))
            },
            State::ScriptDataLessThanSign => {
                if c == '/' {
                    self.buf = Vec::new();
                    self.state = State::ScriptDataEndTagOpen;
                    return None;
                }
                self.reconsume = true;
                self.state = State::ScriptData;
                Some(HTMLToken::Char('<'))
            },
            State::ScriptDataEndTagOpen => {
                if is_ascii_alphabetic(c) {
                    self.reconsume = true;
                    self.state = State::ScriptDataEndTagName;
                    self.create_tag(false);
                    return None;
                }
                self.reconsume = true;
                self.state = State::ScriptData;
                Some(HTMLToken::Char('<'))
            },
            State::ScriptDataEndTagName => {
                if c == '>' {
                    return self.emit_latest();
                }
                if is_ascii_alphabetic(c) {
                    self.buf.push(c);
                    self.append_tag_name(to_ascii_lowercase(c));
                    return None;
                }
                self.state = State::TemporaryBuffer;
                let ghost held = self.buf@;
                self.buf.insert(0, '<');
                self.buf.insert(1, '/');
                self.buf.push(c);
                assert(self.buf@ =~= (seq!['<', '/'] + held).push(c));
                None
            },
            State::TemporaryBuffer => self.flush(),
            _ => None,
        }
    }

    /// One step of the machine on the character `c`, which was just read.
    fn step(&mut self, c: char) -> (t: Option<HTMLToken>)
        requires
            old(self)@.ready_for(c),
        ensures
            final(self)@ == transition(old(self)@, c).next,
            token_view(t) == transition(old(self)@, c).emitted,
    {
        match self.state {
            State::Data
            | State::TagOpen
            | State::EndTagOpen
            | State::TagName
            | State::SelfClosingStartTag => self.step_in_tag(c),
            State::BeforeAttributeName
            | State::AttributeName
            | State::AfterAttributeName
            | State::BeforeAttributeValue
            | State::AttributeValueDoubleQuoted
            | State::AttributeValueSingleQuoted
            | State::AttributeValueUnquoted
            | State::AfterAttributeValueQuoted => self.step_in_attribute(c),
            State::ScriptData
            | State::ScriptDataLessThanSign
            | State::ScriptDataEndTagOpen
            | State::ScriptDataEndTagName
            | State::TemporaryBuffer => self.step_in_script(c),
        }
    }

    /// One turn in `TemporaryBuffer`: hands out the first of the characters
    /// held back, or returns to `ScriptData` when none is left.
    fn flush(&mut self) -> (t: Option<HTMLToken>)
        ensures
            final(self)@ == flush(old(self)@).next,
            token_view(t) == flush(old(self)@).emitted,
    {
        if self.buf.len() == 0 {
            self.state = State::ScriptData;
            return None;
        }
        let ghost held = self.buf@;
        let first = self.buf.remove(0);
        assert(self.buf@ =~= held.drop_first());
        Some(HTMLToken::Char(first))
    }

    /// Whether the machine is in `TemporaryBuffer`.
    fn flushes(&self) -> (r: bool)
        ensures
            r == (self@.state == State::TemporaryBuffer),
    {
        match self.state {
            State::TemporaryBuffer => true,
            _ => false,
        }
    }

    /// The next token, or `None` when there is none.
    ///
    /// An empty text has no token. Of any other text a call reads
    /// characters until a token is complete and hands it out; when the
    /// input is used up, at the end of a token or inside one, the call
    /// yields `Eof`, and every later call yields `None`. A character that
    /// is to be read again and characters that are held back are handed
    /// out before `Eof`. The name of a tag that is handed out holds no
    /// ASCII uppercase letter, and every attribute of it has a name.
    pub fn next(&mut self) -> (t: Option<HTMLToken>)
        requires
            old(self)@.wf(),
        ensures
            final(self)@ == spec_next(old(self)@).next,
            token_view(t) == spec_next(old(self)@).emitted,
            final(self)@.wf(),
            is_well_formed(token_view(t)),
    {
        if self.finished || self.input.len() == 0 {
            return None;
        }
        let ghost start = self@;
        loop
            invariant
                self@.wf(),
                run(self@) == run(start),
                spec_next(old(self)@) == run(start),
            decreases self@.input.len() - self@.pos, turns_without_reading(self@),
        {
            let ghost before = self@;
            proof {
                lemma_iterate_wf(before);
                lemma_iterate_decreases(before);
            }
            let t = if self.flushes() {
                self.flush()
            } else if self.is_eof() {
                self.finished = true;
                Some(HTMLToken::Eof)
            } else {
                let c = if self.reconsume {
                    self.reconsume_input()
                } else {
                    self.consume_next_input()
                };
                self.step(c)
            };
            if t.is_some() {
                return t;
            }
        }
    }
}

} // verus!
