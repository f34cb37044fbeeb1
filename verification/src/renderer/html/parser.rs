//! Tree construction: the automaton that turns HTML tokens into a document
//! tree.
//!
//! [`BuilderModel`] states the automaton over plain data: what each token
//! does in each insertion mode ([`BuilderModel::handle`]), and which tree a
//! whole token stream builds ([`build`]). [`HtmlParser`] is the executable
//! automaton, proved to build exactly that tree.

use crate::renderer::dom::node::{
    lemma_name_round_trip, lemma_with_child_wf, lemma_with_text_char_wf, links_wf, tree_wf,
    with_child, with_text_char, Element, ElementKind, ElementView, Node, NodeId, NodeKind,
    NodeKindView, NodeView, Window,
};
use crate::renderer::html::attribute::{
    attribute_views, duplicate_attributes, Attribute, AttributeView,
};
use crate::renderer::html::token::{
    lemma_next_decreases, spec_next, turns_without_reading, HTMLToken, HtmlTokenizer, TokenView,
    TokenizerModel,
};
use crate::text::{push_char, str_eq};
use vstd::prelude::*;

verus! {

/// The insertion modes of the automaton.
#[derive(Debug, Copy, Clone, PartialEq, Eq, Structural)]
pub enum InsertionMode {
    Initial,
    BeforeHtml,
    BeforeHead,
    InHead,
    AfterHead,
    InBody,
    Text,
    AfterBody,
    AfterAfterBody,
}

/// The automaton as plain data: the tree built so far, the mode, the mode
/// to return to after `Text`, and the stack of open elements (the names of
/// nodes of the tree, innermost last).
pub struct BuilderModel {
    pub window: Seq<NodeView>,
    pub mode: InsertionMode,
    pub original_insertion_mode: InsertionMode,
    pub stack: Seq<NodeId>,
}

/// The automaton after a token, and whether the token ended the
/// construction.
pub struct Handled {
    pub model: BuilderModel,
    pub finished: bool,
}

/// A space or a line feed: the characters that the automaton treats as
/// whitespace.
pub open spec fn is_blank(c: char) -> bool {
    c == ' ' || c == '\n'
}

/// The kind of the element at position `i` of `stack`, if that node is an
/// element.
pub open spec fn kind_at(window: Seq<NodeView>, stack: Seq<NodeId>, i: int) -> Option<
    ElementKind,
> {
    window[stack[i] as int].kind.element_kind()
}

/// Whether an element of the given kind is on the stack.
pub open spec fn stack_contains(
    window: Seq<NodeView>,
    stack: Seq<NodeId>,
    kind: ElementKind,
) -> bool {
    exists|i: int| 0 <= i < stack.len() && #[trigger] kind_at(window, stack, i) == Some(kind)
}

/// The stack after popping up to and including the innermost element of
/// the given kind; empty if there is none.
pub open spec fn popped_until(window: Seq<NodeView>, stack: Seq<NodeId>, kind: ElementKind) -> Seq<
    NodeId,
>
    decreases stack.len(),
{
    if stack.len() == 0 {
        stack
    } else if kind_at(window, stack, stack.len() - 1) == Some(kind) {
        stack.drop_last()
    } else {
        popped_until(window, stack.drop_last(), kind)
    }
}

impl BuilderModel {
    /// The automaton before the first token, on an empty document.
    pub open spec fn initial() -> BuilderModel {
        BuilderModel {
            window: seq![NodeView::unlinked(NodeKindView::Document)],
            mode: InsertionMode::Initial,
            original_insertion_mode: InsertionMode::Initial,
            stack: Seq::empty(),
        }
    }

    /// The node that new nodes are appended to: the innermost open element,
    /// or the document if none is open.
    pub open spec fn target(self) -> NodeId {
        if self.stack.len() > 0 {
            self.stack.last()
        } else {
            0
        }
    }

    /// The kind of the innermost open element, if there is one.
    pub open spec fn top_kind(self) -> Option<ElementKind> {
        if self.stack.len() > 0 {
            kind_at(self.window, self.stack, self.stack.len() - 1)
        } else {
            None
        }
    }

    /// The automaton in another mode.
    pub open spec fn in_mode(self, mode: InsertionMode) -> BuilderModel {
        BuilderModel { mode, ..self }
    }

    /// Whether an element of the given kind is open.
    pub open spec fn contains(self, kind: ElementKind) -> bool {
        stack_contains(self.window, self.stack, kind)
    }

    /// A new element, appended as the last child of the target and pushed
    /// on the stack.
    pub open spec fn insert_element(
        self,
        kind: ElementKind,
        attributes: Seq<AttributeView>,
    ) -> BuilderModel {
        BuilderModel {
            window: with_child(
                self.window,
                self.target(),
                NodeKindView::Element(ElementView { kind, attributes }),
            ),
            stack: self.stack.push(self.window.len() as usize),
            ..self
        }
    }

    /// A character of text. With nothing open, it is dropped. If the
    /// innermost open node is a text, the character joins it. Otherwise
    /// whitespace is dropped, and any other character starts a new text,
    /// which is appended as the last child of the target and pushed on the
    /// stack.
    pub open spec fn insert_char(self, c: char) -> BuilderModel {
        if self.stack.len() == 0 {
            self
        } else if self.window[self.target() as int].kind is Text {
            BuilderModel { window: with_text_char(self.window, self.target(), c), ..self }
        } else if is_blank(c) {
            self
        } else {
            BuilderModel {
                window: with_child(self.window, self.target(), NodeKindView::Text(seq![c])),
                stack: self.stack.push(self.window.len() as usize),
                ..self
            }
        }
    }

    /// The innermost open element popped, if it is of the given kind.
    pub open spec fn pop_current_node(self, kind: ElementKind) -> BuilderModel {
        if self.top_kind() == Some(kind) {
            BuilderModel { stack: self.stack.drop_last(), ..self }
        } else {
            self
        }
    }

    /// Everything popped up to and including the innermost element of the
    /// given kind.
    pub open spec fn pop_until(self, kind: ElementKind) -> BuilderModel {
        BuilderModel { stack: popped_until(self.window, self.stack, kind), ..self }
    }

    /// As [`Self::pop_until`] if an element of the given kind is open;
    /// unchanged otherwise.
    pub open spec fn pop_until_if_open(self, kind: ElementKind) -> BuilderModel {
        if self.contains(kind) {
            self.pop_until(kind)
        } else {
            self
        }
    }

    /// The token was taken.
    pub open spec fn consumed(self) -> Handled {
        Handled { model: self, finished: false }
    }

    /// The token ended the construction.
    pub open spec fn finished(self) -> Handled {
        Handled { model: self, finished: true }
    }

    /// How many times a token can still be handed on to another mode.
    pub open spec fn retries(self, token: TokenView) -> nat {
        match self.mode {
            InsertionMode::Text => 10,
            InsertionMode::Initial => 9,
            InsertionMode::BeforeHtml => 8,
            InsertionMode::BeforeHead => 7,
            InsertionMode::InHead => 5,
            InsertionMode::AfterHead => 4,
            InsertionMode::AfterAfterBody => 3,
            InsertionMode::AfterBody => if token is EndTag && token.tag_name() == "html"@ {
                0
            } else {
                2
            },
            InsertionMode::InBody => 1,
        }
    }

    /// What a token does to the automaton.
    ///
    /// A token is either taken in the current mode, or the mode changes and
    /// the token is handled again there. Missing `html`, `head` and `body`
    /// tags are made up on the way. `Eof` ends the construction in every
    /// mode.
    pub open spec fn handle(self, token: TokenView) -> Handled
        decreases self.retries(token),
    {
        match self.mode {
            InsertionMode::Initial => match token {
                TokenView::Char(_) => self.consumed(),
                _ => self.in_mode(InsertionMode::BeforeHtml).handle(token),
            },
            InsertionMode::BeforeHtml => match token {
                TokenView::Char(c) if is_blank(c) => self.consumed(),
                TokenView::StartTag { tag, attributes, .. } if tag == "html"@ => {
                    self.insert_element(ElementKind::Html, attributes).in_mode(
                        InsertionMode::BeforeHead,
                    ).consumed()
                },
                TokenView::Eof => self.finished(),
                _ => self.insert_element(ElementKind::Html, Seq::empty()).in_mode(
                    InsertionMode::BeforeHead,
                ).handle(token),
            },
            InsertionMode::BeforeHead => match token {
                TokenView::Char(c) if is_blank(c) => self.consumed(),
                TokenView::StartTag { tag, attributes, .. } if tag == "head"@ => {
                    self.insert_element(ElementKind::Head, attributes).in_mode(
                        InsertionMode::InHead,
                    ).consumed()
                },
                TokenView::Eof => self.finished(),
                _ => self.insert_element(ElementKind::Head, Seq::empty()).in_mode(
                    InsertionMode::InHead,
                ).handle(token),
            },
            InsertionMode::InHead => match token {
                TokenView::Char(c) => if is_blank(c) {
                    self.insert_char(c).consumed()
                } else {
                    self.consumed()
                },
                TokenView::StartTag { tag, attributes, .. } => if tag == "style"@ {
                    BuilderModel {
                        original_insertion_mode: self.mode,
                        mode: InsertionMode::Text,
                        ..self.insert_element(ElementKind::Style, attributes)
                    }.consumed()
                } else if tag == "script"@ {
                    BuilderModel {
                        original_insertion_mode: self.mode,
                        mode: InsertionMode::Text,
                        ..self.insert_element(ElementKind::Script, attributes)
                    }.consumed()
                } else if ElementKind::spec_from_name(tag) is Some {
                    self.pop_until(ElementKind::Head).in_mode(InsertionMode::AfterHead).handle(
                        token,
                    )
                } else {
                    self.consumed()
                },
                TokenView::EndTag { tag } => if tag == "head"@ {
                    self.pop_until(ElementKind::Head).in_mode(InsertionMode::AfterHead).consumed()
                } else {
                    self.consumed()
                },
                TokenView::Eof => self.finished(),
            },
            InsertionMode::AfterHead => match token {
                TokenView::Char(c) if is_blank(c) => self.insert_char(c).consumed(),
                TokenView::StartTag { tag, attributes, .. } if tag == "body"@ => {
                    self.insert_element(ElementKind::Body, attributes).in_mode(
                        InsertionMode::InBody,
                    ).consumed()
                },
                TokenView::Eof => self.finished(),
                _ => self.insert_element(ElementKind::Body, Seq::empty()).in_mode(
                    InsertionMode::InBody,
                ).handle(token),
            },
            InsertionMode::InBody => match token {
                TokenView::StartTag { tag, attributes, .. } => if tag == "p"@ {
                    self.insert_element(ElementKind::P, attributes).consumed()
                } else {
                    self.consumed()
                },
                TokenView::EndTag { tag } => if tag == "body"@ {
                    self.in_mode(InsertionMode::AfterBody).pop_until_if_open(
                        ElementKind::Body,
                    ).consumed()
                } else if tag == "html"@ {
                    if self.top_kind() == Some(ElementKind::Body) {
                        self.pop_current_node(ElementKind::Body).pop_current_node(
                            ElementKind::Html,
                        ).in_mode(InsertionMode::AfterBody).handle(token)
                    } else {
                        self.consumed()
                    }
                } else {
                    self.consumed()
                },
                TokenView::Char(c) => self.insert_char(c).consumed(),
                TokenView::Eof => self.finished(),
            },
            InsertionMode::Text => match token {
                TokenView::Eof => self.finished(),
                TokenView::EndTag { tag } if tag == "style"@ => self.pop_until_if_open(
                    ElementKind::Style,
                ).in_mode(self.original_insertion_mode).consumed(),
                TokenView::EndTag { tag } if tag == "script"@ => self.pop_until_if_open(
                    ElementKind::Script,
                ).in_mode(self.original_insertion_mode).consumed(),
                TokenView::Char(c) => self.insert_char(c).consumed(),
                _ => if self.original_insertion_mode == InsertionMode::Text {
                    self.consumed()
                } else {
                    self.in_mode(self.original_insertion_mode).handle(token)
                },
            },
            InsertionMode::AfterBody => match token {
                TokenView::Char(_) => self.consumed(),
                TokenView::EndTag { tag } if tag == "html"@ => self.in_mode(
                    InsertionMode::AfterAfterBody,
                ).consumed(),
                TokenView::Eof => self.finished(),
                _ => self.in_mode(InsertionMode::InBody).handle(token),
            },
            InsertionMode::AfterAfterBody => match token {
                TokenView::Char(_) => self.consumed(),
                TokenView::Eof => self.finished(),
                _ => self.in_mode(InsertionMode::InBody).handle(token),
            },
        }
    }
}

/// The tree that the automaton builds from the tokens that the tokenizer
/// yields: token after token is handled until one ends the construction or
/// the tokenizer has no more.
pub open spec fn build(b: BuilderModel, t: TokenizerModel) -> Seq<NodeView>
    decreases t.input.len() - t.pos, turns_without_reading(t),
{
    let s = spec_next(t);
    match s.emitted {
        None => b.window,
        Some(token) => {
            let h = b.handle(token);
            if h.finished {
                h.model.window
            } else {
                proof {
                    lemma_next_decreases(t);
                }
                build(h.model, s.next)
            }
        },
    }
}

/// An open `head` stands somewhere below position `i` of the stack.
pub open spec fn head_below(window: Seq<NodeView>, stack: Seq<NodeId>, i: int) -> bool {
    exists|j: int| 0 <= j < i && #[trigger] kind_at(window, stack, j) == Some(ElementKind::Head)
}

/// What holds of entry `i` of the stack of open elements: it names a node
/// of the tree; a `body` or `head` stands directly above an `html`; a
/// `style` or `script` stands above a `head`.
pub open spec fn entry_wf(window: Seq<NodeView>, stack: Seq<NodeId>, i: int) -> bool {
    let kind = kind_at(window, stack, i);
    &&& stack[i] < window.len()
    &&& kind == Some(ElementKind::Body) || kind == Some(ElementKind::Head) ==> i >= 1 && kind_at(
        window,
        stack,
        i - 1,
    ) == Some(ElementKind::Html)
    &&& kind == Some(ElementKind::Style) || kind == Some(ElementKind::Script) ==> head_below(
        window,
        stack,
        i,
    )
}

/// The tree is well formed, and every entry of the stack of open elements
/// names a node of it.
pub open spec fn stack_in_tree(window: Seq<NodeView>, stack: Seq<NodeId>) -> bool {
    &&& tree_wf(window)
    &&& forall|i: int| 0 <= i < stack.len() ==> #[trigger] stack[i] < window.len()
}

/// What holds of the stack of open elements whatever the mode:
/// [`stack_in_tree`], and every entry is as [`entry_wf`] says.
pub open spec fn stack_wf(window: Seq<NodeView>, stack: Seq<NodeId>) -> bool {
    &&& stack_in_tree(window, stack)
    &&& forall|i: int| 0 <= i < stack.len() ==> #[trigger] entry_wf(window, stack, i)
}

impl BuilderModel {
    /// The invariant of the automaton: [`stack_wf`], and what the modes
    /// rely on. Before a `head` or a `body` is inserted, the innermost open
    /// element is `html`; while the head is read, a `head` is open; `Text`
    /// returns to `InHead`.
    pub open spec fn wf(self) -> bool {
        &&& stack_wf(self.window, self.stack)
        &&& self.mode == InsertionMode::BeforeHead || self.mode == InsertionMode::AfterHead
            ==> self.top_kind() == Some(ElementKind::Html)
        &&& self.mode == InsertionMode::InHead || self.mode == InsertionMode::Text
            ==> self.contains(ElementKind::Head)
        &&& self.mode == InsertionMode::Text ==> self.original_insertion_mode
            == InsertionMode::InHead
    }

    /// The stack satisfies [`stack_wf`] and a node of the given kind may be
    /// pushed on it ([`Self::admits`]).
    pub open spec fn keeps_stack_wf(self, kind: Option<ElementKind>) -> bool {
        stack_wf(self.window, self.stack) && self.admits(kind)
    }

    /// A node of the given kind may be pushed: a `body` or `head` only
    /// directly above an `html`, a `style` or `script` only above a `head`.
    pub open spec fn admits(self, kind: Option<ElementKind>) -> bool {
        &&& kind == Some(ElementKind::Body) || kind == Some(ElementKind::Head) ==> self.top_kind()
            == Some(ElementKind::Html)
        &&& kind == Some(ElementKind::Style) || kind == Some(ElementKind::Script)
            ==> self.contains(ElementKind::Head)
    }
}

/// Appending a child changes no kind of an older node.
pub proof fn lemma_with_child_keeps_kinds(
    window: Seq<NodeView>,
    parent: NodeId,
    kind: NodeKindView,
    i: int,
)
    requires
        tree_wf(window),
        parent < window.len(),
        0 <= i < window.len(),
    ensures
        with_child(window, parent, kind).len() == window.len() + 1,
        with_child(window, parent, kind)[i].kind == window[i].kind,
        with_child(window, parent, kind)[window.len() as int].kind == kind,
{
    assert(links_wf(window, parent as int));
}

/// If the stack grows or shrinks at its end and the kinds of the entries
/// that stay are kept, an element that was open below position `n` is
/// still open.
pub proof fn lemma_kinds_kept(
    w1: Seq<NodeView>,
    s1: Seq<NodeId>,
    w2: Seq<NodeView>,
    s2: Seq<NodeId>,
    n: int,
)
    requires
        0 <= n <= s1.len(),
        n <= s2.len(),
        forall|i: int| 0 <= i < n ==> #[trigger] kind_at(w2, s2, i) == kind_at(w1, s1, i),
    ensures
        forall|i: int| 0 <= i <= n && head_below(w1, s1, i) ==> head_below(w2, s2, i),
        forall|k: ElementKind|
            stack_contains(w1, s1.take(n), k) ==> #[trigger] stack_contains(w2, s2, k),
{
    assert forall|i: int| 0 <= i <= n && head_below(w1, s1, i) implies head_below(w2, s2, i) by {
        let j = choose|j: int|
            0 <= j < i && #[trigger] kind_at(w1, s1, j) == Some(ElementKind::Head);
        assert(kind_at(w2, s2, j) == Some(ElementKind::Head));
    }
    assert forall|k: ElementKind| stack_contains(w1, s1.take(n), k) implies #[trigger] stack_contains(
        w2,
        s2,
        k,
    ) by {
        let j = choose|j: int|
            0 <= j < s1.take(n).len() && #[trigger] kind_at(w1, s1.take(n), j) == Some(k);
        assert(kind_at(w1, s1.take(n), j) == kind_at(w1, s1, j));
        assert(kind_at(w2, s2, j) == Some(k));
    }
}

/// Pushing a new child of the target keeps [`stack_wf`] if the automaton
/// admits its kind. Everything that was open stays open, and the new node
/// is the innermost.
pub proof fn lemma_push_child_wf(b: BuilderModel, kind: NodeKindView)
    requires
        stack_wf(b.window, b.stack),
        !(kind is Document),
        b.window.len() < usize::MAX,
        b.admits(kind.element_kind()),
    ensures
        ({
            let r = BuilderModel {
                window: with_child(b.window, b.target(), kind),
                stack: b.stack.push(b.window.len() as usize),
                ..b
            };
            &&& stack_wf(r.window, r.stack)
            &&& r.top_kind() == kind.element_kind()
            &&& forall|k: ElementKind| b.contains(k) ==> #[trigger] r.contains(k)
        }),
{
    let window = with_child(b.window, b.target(), kind);
    let stack = b.stack.push(b.window.len() as usize);
    let n = b.stack.len() as int;
    if n > 0 {
        assert(entry_wf(b.window, b.stack, n - 1));
    }
    lemma_with_child_wf(b.window, b.target(), kind);
    lemma_with_child_keeps_kinds(b.window, b.target(), kind, 0);
    assert forall|i: int| 0 <= i < n implies #[trigger] kind_at(window, stack, i) == kind_at(
        b.window,
        b.stack,
        i,
    ) by {
        assert(entry_wf(b.window, b.stack, i));
        lemma_with_child_keeps_kinds(b.window, b.target(), kind, b.stack[i] as int);
    }
    lemma_kinds_kept(b.window, b.stack, window, stack, n);
    assert(b.stack.take(n) =~= b.stack);
    assert forall|i: int| 0 <= i < stack.len() implies #[trigger] entry_wf(window, stack, i) by {
        if i < n {
            assert(entry_wf(b.window, b.stack, i));
            if i > 0 {
                assert(kind_at(window, stack, i - 1) == kind_at(b.window, b.stack, i - 1));
            }
        } else {
            if n > 0 {
                assert(kind_at(window, stack, n - 1) == kind_at(b.window, b.stack, n - 1));
            }
            if b.contains(ElementKind::Head) {
                let j = choose|j: int|
                    0 <= j < b.stack.len() && #[trigger] kind_at(b.window, b.stack, j) == Some(
                        ElementKind::Head,
                    );
                assert(kind_at(window, stack, j) == Some(ElementKind::Head));
            }
        }
    }
}

/// Appending to the text of the target keeps [`stack_wf`], and everything
/// that was open stays open.
pub proof fn lemma_text_char_wf(b: BuilderModel, c: char)
    requires
        stack_wf(b.window, b.stack),
        b.stack.len() > 0,
    ensures
        ({
            let r = BuilderModel { window: with_text_char(b.window, b.target(), c), ..b };
            &&& stack_wf(r.window, r.stack)
            &&& r.window.len() == b.window.len()
            &&& r.top_kind() == b.top_kind()
            &&& forall|k: ElementKind| b.contains(k) ==> #[trigger] r.contains(k)
        }),
{
    let window = with_text_char(b.window, b.target(), c);
    let n = b.stack.len() as int;
    assert(entry_wf(b.window, b.stack, n - 1));
    lemma_with_text_char_wf(b.window, b.target(), c);
    assert forall|i: int| 0 <= i < n implies #[trigger] kind_at(window, b.stack, i) == kind_at(
        b.window,
        b.stack,
        i,
    ) by {
        assert(entry_wf(b.window, b.stack, i));
    }
    lemma_kinds_kept(b.window, b.stack, window, b.stack, n);
    assert(b.stack.take(n) =~= b.stack);
    assert forall|i: int| 0 <= i < n implies #[trigger] entry_wf(window, b.stack, i) by {
        assert(entry_wf(b.window, b.stack, i));
        if i > 0 {
            assert(kind_at(window, b.stack, i - 1) == kind_at(b.window, b.stack, i - 1));
        }
    }
}

/// A prefix of a stack that satisfies [`stack_wf`] satisfies it too.
pub proof fn lemma_prefix_wf(window: Seq<NodeView>, stack: Seq<NodeId>, n: int)
    requires
        stack_wf(window, stack),
        0 <= n <= stack.len(),
    ensures
        stack_wf(window, stack.take(n)),
        forall|i: int|
            0 <= i < n ==> #[trigger] kind_at(window, stack.take(n), i) == kind_at(
                window,
                stack,
                i,
            ),
{
    let p = stack.take(n);
    assert forall|i: int| 0 <= i < n implies #[trigger] kind_at(window, p, i) == kind_at(
        window,
        stack,
        i,
    ) by {}
    lemma_kinds_kept(window, stack, window, p, n);
    assert forall|i: int| 0 <= i < p.len() implies #[trigger] entry_wf(window, p, i) by {
        assert(entry_wf(window, stack, i));
        if i > 0 {
            assert(kind_at(window, p, i - 1) == kind_at(window, stack, i - 1));
        }
    }
}

/// Popping up to an element of a kind that is open leaves the part of the
/// stack below the innermost such element.
pub proof fn lemma_popped_until(window: Seq<NodeView>, stack: Seq<NodeId>, kind: ElementKind) -> (n:
    int)
    requires
        stack_contains(window, stack, kind),
    ensures
        0 <= n < stack.len(),
        kind_at(window, stack, n) == Some(kind),
        forall|i: int| n < i < stack.len() ==> kind_at(window, stack, i) != Some(kind),
        popped_until(window, stack, kind) == stack.take(n),
    decreases stack.len(),
{
    let last = stack.len() - 1;
    if kind_at(window, stack, last) == Some(kind) {
        assert(stack.drop_last() =~= stack.take(last));
        last
    } else {
        let rest = stack.drop_last();
        let i = choose|i: int|
            0 <= i < stack.len() && #[trigger] kind_at(window, stack, i) == Some(kind);
        assert(kind_at(window, rest, i) == Some(kind));
        let n = lemma_popped_until(window, rest, kind);
        assert(rest.take(n) =~= stack.take(n));
        assert(kind_at(window, rest, n) == kind_at(window, stack, n));
        assert forall|j: int| n < j < stack.len() implies kind_at(window, stack, j) != Some(
            kind,
        ) by {
            if j < last {
                assert(kind_at(window, rest, j) == kind_at(window, stack, j));
            }
        }
        n
    }
}

/// Popping up to an open element keeps [`stack_wf`]. Below a `head` or a
/// `body` the innermost open element is `html`; below a `style` or a
/// `script` a `head` is still open.
pub proof fn lemma_pop_until_wf(b: BuilderModel, kind: ElementKind)
    requires
        stack_wf(b.window, b.stack),
        b.contains(kind),
    ensures
        stack_wf(b.pop_until(kind).window, b.pop_until(kind).stack),
        b.pop_until(kind).stack.len() < b.stack.len(),
        kind == ElementKind::Head || kind == ElementKind::Body ==> b.pop_until(kind).top_kind()
            == Some(ElementKind::Html),
        kind == ElementKind::Style || kind == ElementKind::Script ==> b.pop_until(kind).contains(
            ElementKind::Head,
        ),
{
    let n = lemma_popped_until(b.window, b.stack, kind);
    lemma_prefix_wf(b.window, b.stack, n);
    assert(entry_wf(b.window, b.stack, n));
    let p = b.stack.take(n);
    if kind == ElementKind::Head || kind == ElementKind::Body {
        assert(kind_at(b.window, p, n - 1) == kind_at(b.window, b.stack, n - 1));
    }
    if kind == ElementKind::Style || kind == ElementKind::Script {
        let j = choose|j: int|
            0 <= j < n && #[trigger] kind_at(b.window, b.stack, j) == Some(ElementKind::Head);
        assert(kind_at(b.window, p, j) == Some(ElementKind::Head));
    }
}

/// What one mode does with a token. With `Some(finished)` the token was
/// dealt with, and `after` is the automaton after it; with `None` the mode
/// changed, the token is still to be handled, and fewer retries are left.
pub open spec fn handles(
    before: BuilderModel,
    token: TokenView,
    after: BuilderModel,
    r: Option<bool>,
) -> bool {
    match r {
        Some(finished) => before.handle(token) == (Handled { model: after, finished }),
        None => before.handle(token) == after.handle(token) && after.retries(token)
            < before.retries(token),
    }
}

/// The tree builder: a tokenizer, the tree built so far, and the state of
/// the automaton.
///
/// A parser is made by [`HtmlParser::new`], which establishes
/// [`HtmlParser::wf`].
#[derive(Debug, Clone)]
pub struct HtmlParser {
    window: Window,
    mode: InsertionMode,
    original_insertion_mode: InsertionMode,
    stack_of_open_elements: Vec<NodeId>,
    t: HtmlTokenizer,
}

impl HtmlParser {
    /// The automaton as plain data.
    pub closed spec fn builder(&self) -> BuilderModel {
        BuilderModel {
            window: self.window@,
            mode: self.mode,
            original_insertion_mode: self.original_insertion_mode,
            stack: self.stack_of_open_elements@,
        }
    }

    /// The tokenizer as plain data.
    pub closed spec fn tokenizer(&self) -> TokenizerModel {
        self.t@
    }

    /// The invariants of the automaton and of the tokenizer.
    pub open spec fn wf(&self) -> bool {
        self.builder().wf() && self.tokenizer().wf()
    }

    /// A parser that reads from `t` and starts from an empty document.
    pub fn new(t: HtmlTokenizer) -> (p: HtmlParser)
        requires
            t@.wf(),
        ensures
            p.builder() == BuilderModel::initial(),
            p.tokenizer() == t@,
            p.wf(),
    {
        HtmlParser {
            window: Window::new(),
            mode: InsertionMode::Initial,
            original_insertion_mode: InsertionMode::Initial,
            stack_of_open_elements: Vec::new(),
            t,
        }
    }

    /// An unlinked element node.
    fn create_element(&self, tag: &str, attributes: Vec<Attribute>) -> (n: Node)
        requires
            ElementKind::spec_from_name(tag@) is Some,
        ensures
            n@ == NodeView::unlinked(
                NodeKindView::Element(
                    ElementView {
                        kind: ElementKind::spec_from_name(tag@)->0,
                        attributes: attribute_views(attributes@),
                    },
                ),
            ),
    {
        match Element::new(tag, attributes) {
            Ok(e) => Node::new(NodeKind::Element(e)),
            Err(_) => {
                assert(false);
                Node::new(NodeKind::Document)
            },
        }
    }

    /// An unlinked text node that holds `c`.
    fn create_char(&self, c: char) -> (n: Node)
        ensures
            n@ == NodeView::unlinked(NodeKindView::Text(seq![c])),
    {
        let mut s = String::new();
        push_char(&mut s, c);
        assert(s@ =~= seq![c]);
        Node::new(NodeKind::Text(s))
    }

    /// The node that new nodes are appended to.
    fn target(&self) -> (id: NodeId)
        requires
            stack_in_tree(self.builder().window, self.builder().stack),
        ensures
            id == self.builder().target(),
            id < self.builder().window.len(),
    {
        let n = self.stack_of_open_elements.len();
        if n > 0 {
            proof {
                assert(self.builder().stack[n - 1] < self.builder().window.len());
            }
            self.stack_of_open_elements[n - 1]
        } else {
            self.window.document()
        }
    }

    /// Appends an element named `tag`, which may be any element that the
    /// engine knows, as the last child of the target, whatever the target
    /// is, and pushes it on the stack.
    ///
    /// The new node is the innermost open element. Where the automaton
    /// admits an element of this kind at this place, the invariant of the
    /// stack is kept and everything that was open stays open.
    fn insert_element(&mut self, tag: &str, attributes: Vec<Attribute>)
        requires
            stack_in_tree(old(self).builder().window, old(self).builder().stack),
            ElementKind::spec_from_name(tag@) is Some,
        ensures
            final(self).builder() == old(self).builder().insert_element(
                ElementKind::spec_from_name(tag@)->0,
                attribute_views(attributes@),
            ),
            final(self).tokenizer() == old(self).tokenizer(),
            stack_in_tree(final(self).builder().window, final(self).builder().stack),
            final(self).builder().top_kind() == ElementKind::spec_from_name(tag@),
            old(self).builder().keeps_stack_wf(ElementKind::spec_from_name(tag@)) ==> stack_wf(
                final(self).builder().window,
                final(self).builder().stack,
            ) && forall|k: ElementKind|
                old(self).builder().contains(k) ==> #[trigger] final(self).builder().contains(k),
    {
        let ghost b = self.builder();
        let target = self.target();
        let node = self.create_element(tag, attributes);
        let ghost kind = node@.kind;
        let id = self.window.append_child(target, node.into_kind());
        self.stack_of_open_elements.push(id);
        proof {
            lemma_with_child_keeps_kinds(b.window, b.target(), kind, 0);
            let r = self.builder();
            assert forall|i: int| 0 <= i < r.stack.len() implies #[trigger] r.stack[i]
                < r.window.len() by {
                if i < b.stack.len() {
                    assert(b.stack[i] < b.window.len());
                }
            }
            if b.keeps_stack_wf(ElementKind::spec_from_name(tag@)) {
                lemma_push_child_wf(b, kind);
            }
        }
    }

    /// Adds a character of text: to the innermost open node if that is a
    /// text, else, unless the character is whitespace, as a new text node
    /// below the innermost open node. With nothing open the character is
    /// dropped.
    fn insert_char(&mut self, c: char)
        requires
            stack_wf(old(self).builder().window, old(self).builder().stack),
        ensures
            final(self).builder() == old(self).builder().insert_char(c),
            final(self).tokenizer() == old(self).tokenizer(),
            stack_wf(final(self).builder().window, final(self).builder().stack),
            old(self).builder().top_kind() is Some && is_blank(c) ==> final(self).builder()
                == old(self).builder(),
            forall|k: ElementKind|
                old(self).builder().contains(k) ==> #[trigger] final(self).builder().contains(k),
    {
        let ghost b = self.builder();
        if self.stack_of_open_elements.len() == 0 {
            return ;
        }
        let current = self.target();
        if self.window.node(current).is_text() {
            self.window.append_text_char(current, c);
            proof {
                lemma_text_char_wf(b, c);
            }
            return ;
        }
        if c == '\n' || c == ' ' {
            return ;
        }
        let node = self.create_char(c);
        let id = self.window.append_child(current, node.into_kind());
        self.stack_of_open_elements.push(id);
        proof {
            lemma_with_child_keeps_kinds(b.window, b.target(), NodeKindView::Text(seq![c]), 0);
            lemma_push_child_wf(b, NodeKindView::Text(seq![c]));
        }
    }

    /// The kind of the element at position `i` of the stack.
    fn kind_at(&self, i: usize) -> (k: Option<ElementKind>)
        requires
            stack_wf(self.builder().window, self.builder().stack),
            i < self.builder().stack.len(),
        ensures
            k == kind_at(self.builder().window, self.builder().stack, i as int),
    {
        proof {
            assert(entry_wf(self.builder().window, self.builder().stack, i as int));
        }
        self.window.node(self.stack_of_open_elements[i]).get_element_kind()
    }

    /// Pops the innermost open element if it is of the given kind, and says
    /// whether it did.
    fn pop_current_node(&mut self, element: ElementKind) -> (popped: bool)
        requires
            stack_wf(old(self).builder().window, old(self).builder().stack),
        ensures
            popped == (old(self).builder().top_kind() == Some(element)),
            final(self).builder() == old(self).builder().pop_current_node(element),
            final(self).tokenizer() == old(self).tokenizer(),
            stack_wf(final(self).builder().window, final(self).builder().stack),
            popped && (element == ElementKind::Body || element == ElementKind::Head)
                ==> final(self).builder().top_kind() == Some(ElementKind::Html),
    {
        let n = self.stack_of_open_elements.len();
        if n == 0 {
            return false;
        }
        let ghost b = self.builder();
        match self.kind_at(n - 1) {
            Some(k) => {
                if k == element {
                    self.stack_of_open_elements.pop();
                    proof {
                        assert(self.builder().stack =~= b.stack.take(n - 1));
                        assert(b.stack.drop_last() =~= b.stack.take(n - 1));
                        lemma_prefix_wf(b.window, b.stack, n - 1);
                        assert(entry_wf(b.window, b.stack, n - 1));
                        if n >= 2 {
                            assert(kind_at(b.window, b.stack.take(n - 1), n - 2) == kind_at(
                                b.window,
                                b.stack,
                                n - 2,
                            ));
                        }
                    }
                    return true;
                }
                false
            },
            None => false,
        }
    }

    /// Pops up to and including the innermost open element of the given
    /// kind, which must be open.
    fn pop_until(&mut self, element_kind: ElementKind)
        requires
            stack_wf(old(self).builder().window, old(self).builder().stack),
            old(self).builder().contains(element_kind),
        ensures
            final(self).builder() == old(self).builder().pop_until(element_kind),
            final(self).tokenizer() == old(self).tokenizer(),
            stack_wf(final(self).builder().window, final(self).builder().stack),
            element_kind == ElementKind::Head || element_kind == ElementKind::Body
                ==> final(self).builder().top_kind() == Some(ElementKind::Html),
            element_kind == ElementKind::Style || element_kind == ElementKind::Script
                ==> final(self).builder().contains(ElementKind::Head),
    {
        let ghost b = self.builder();
        proof {
            lemma_pop_until_wf(b, element_kind);
        }
        loop
            invariant_except_break
                self.builder().contains(element_kind),
                popped_until(b.window, self.builder().stack, element_kind) == popped_until(
                    b.window,
                    b.stack,
                    element_kind,
                ),
            invariant
                self.builder().window == b.window,
                self.builder().mode == b.mode,
                self.builder().original_insertion_mode == b.original_insertion_mode,
                self.tokenizer() == old(self).tokenizer(),
                stack_wf(self.builder().window, self.builder().stack),
            ensures
                self.builder() == b.pop_until(element_kind),
                self.tokenizer() == old(self).tokenizer(),
            decreases self.builder().stack.len(),
        {
            let n = self.stack_of_open_elements.len();
            let ghost before = self.builder();
            proof {
                let i = lemma_popped_until(before.window, before.stack, element_kind);
            }
            let k = self.kind_at(n - 1);
            self.stack_of_open_elements.pop();
            proof {
                assert(self.builder().stack =~= before.stack.drop_last());
                assert(before.stack.drop_last() =~= before.stack.take(n - 1));
                lemma_prefix_wf(before.window, before.stack, n - 1);
            }
            match k {
                Some(k) => {
                    if k == element_kind {
                        break ;
                    }
                },
                None => {},
            }
            proof {
                let i = choose|i: int|
                    0 <= i < before.stack.len() && #[trigger] kind_at(
                        before.window,
                        before.stack,
                        i,
                    ) == Some(element_kind);
                assert(kind_at(before.window, before.stack.take(n - 1), i) == Some(
                    element_kind,
                ));
            }
        }
    }

    /// Whether an element of the given kind is open.
    fn contain_in_stack(&self, element_kind: ElementKind) -> (found: bool)
        requires
            stack_wf(self.builder().window, self.builder().stack),
        ensures
            found == self.builder().contains(element_kind),
    {
        let mut i: usize = 0;
        while i < self.stack_of_open_elements.len()
            invariant
                stack_wf(self.builder().window, self.builder().stack),
                i <= self.builder().stack.len(),
                forall|j: int|
                    0 <= j < i ==> kind_at(self.builder().window, self.builder().stack, j) != Some(
                        element_kind,
                    ),
            decreases self.stack_of_open_elements.len() - i,
        {
            match self.kind_at(i) {
                Some(k) => {
                    if k == element_kind {
                        return true;
                    }
                },
                None => {},
            }
            i += 1;
        }
        false
    }

    /// `Initial`: characters are ignored; anything else is handled in
    /// `BeforeHtml`.
    fn in_initial(&mut self, token: &HTMLToken) -> (r: Option<bool>)
        requires
            old(self).wf(),
            old(self).builder().mode == InsertionMode::Initial,
        ensures
            final(self).wf(),
            final(self).tokenizer() == old(self).tokenizer(),
            handles(old(self).builder(), token@, final(self).builder(), r),
    {
        if let HTMLToken::Char(_) = token {
            return Some(false);
        }
        self.mode = InsertionMode::BeforeHtml;
        None
    }

    /// `BeforeHtml`: whitespace is ignored; an `html` start tag is
    /// inserted; for anything else an `html` element is made up and the
    /// token is handled in `BeforeHead`.
    fn in_before_html(&mut self, token: &HTMLToken) -> (r: Option<bool>)
        requires
            old(self).wf(),
            old(self).builder().mode == InsertionMode::BeforeHtml,
        ensures
            final(self).wf(),
            final(self).tokenizer() == old(self).tokenizer(),
            handles(old(self).builder(), token@, final(self).builder(), r),
    {
        proof {
            lemma_name_round_trip(ElementKind::Html);
        }
        match token {
            HTMLToken::Char(c) => {
                if *c == ' ' || *c == '\n' {
                    return Some(false);
                }
            },
            HTMLToken::StartTag { tag, attributes, .. } => {
                if str_eq(tag.as_str(), "html") {
                    self.insert_element(tag.as_str(), duplicate_attributes(attributes));
                    self.mode = InsertionMode::BeforeHead;
                    return Some(false);
                }
            },
            HTMLToken::Eof => {
                return Some(true);
            },
            _ => {},
        }
        let no_attributes: Vec<Attribute> = Vec::new();
        assert(attribute_views(no_attributes@) =~= Seq::empty());
        self.insert_element("html", no_attributes);
        self.mode = InsertionMode::BeforeHead;
        None
    }

    /// `BeforeHead`: whitespace is ignored; a `head` start tag is
    /// inserted; for anything else a `head` element is made up and the
    /// token is handled in `InHead`.
    fn in_before_head(&mut self, token: &HTMLToken) -> (r: Option<bool>)
        requires
            old(self).wf(),
            old(self).builder().mode == InsertionMode::BeforeHead,
        ensures
            final(self).wf(),
            final(self).tokenizer() == old(self).tokenizer(),
            handles(old(self).builder(), token@, final(self).builder(), r),
    {
        proof {
            lemma_name_round_trip(ElementKind::Head);
        }
        match token {
            HTMLToken::Char(c) => {
                if *c == ' ' || *c == '\n' {
                    return Some(false);
                }
            },
            HTMLToken::StartTag { tag, attributes, .. } => {
                if str_eq(tag.as_str(), "head") {
                    self.insert_element(tag.as_str(), duplicate_attributes(attributes));
                    self.mode = InsertionMode::InHead;
                    return Some(false);
                }
            },
            HTMLToken::Eof => {
                return Some(true);
            },
            _ => {},
        }
        let no_attributes: Vec<Attribute> = Vec::new();
        assert(attribute_views(no_attributes@) =~= Seq::empty());
        self.insert_element("head", no_attributes);
        self.mode = InsertionMode::InHead;
        None
    }

    /// `InHead`: whitespace is inserted and other characters are dropped;
    /// `style` and `script` are inserted and their content is read in
    /// `Text`; the start tag of any other known element closes the head and
    /// is handled in `AfterHead`; a `head` end tag closes the head.
    fn in_head(&mut self, token: &HTMLToken) -> (r: Option<bool>)
        requires
            old(self).wf(),
            old(self).builder().mode == InsertionMode::InHead,
        ensures
            final(self).wf(),
            final(self).tokenizer() == old(self).tokenizer(),
            handles(old(self).builder(), token@, final(self).builder(), r),
    {
        proof {
            lemma_name_round_trip(ElementKind::Style);
            lemma_name_round_trip(ElementKind::Script);
        }
        match token {
            HTMLToken::Char(c) => {
                if *c == ' ' || *c == '\n' {
                    self.insert_char(*c);
                }
                Some(false)
            },
            HTMLToken::StartTag { tag, attributes, .. } => {
                if str_eq(tag.as_str(), "style") || str_eq(tag.as_str(), "script") {
                    self.insert_element(tag.as_str(), duplicate_attributes(attributes));
                    assert(self.builder().contains(ElementKind::Head));
                    self.original_insertion_mode = self.mode;
                    self.mode = InsertionMode::Text;
                    return Some(false);
                }
                if ElementKind::from_str(tag.as_str()).is_ok() {
                    self.pop_until(ElementKind::Head);
                    self.mode = InsertionMode::AfterHead;
                    return None;
                }
                Some(false)
            },
            HTMLToken::EndTag { tag } => {
                if str_eq(tag.as_str(), "head") {
                    self.mode = InsertionMode::AfterHead;
                    self.pop_until(ElementKind::Head);
                }
                Some(false)
            },
            HTMLToken::Eof => Some(true),
        }
    }

    /// `AfterHead`: whitespace is inserted; a `body` start tag is inserted;
    /// for anything else a `body` element is made up and the token is
    /// handled in `InBody`.
    fn in_after_head(&mut self, token: &HTMLToken) -> (r: Option<bool>)
        requires
            old(self).wf(),
            old(self).builder().mode == InsertionMode::AfterHead,
        ensures
            final(self).wf(),
            final(self).tokenizer() == old(self).tokenizer(),
            handles(old(self).builder(), token@, final(self).builder(), r),
    {
        proof {
            lemma_name_round_trip(ElementKind::Body);
        }
        match token {
            HTMLToken::Char(c) => {
                if *c == ' ' || *c == '\n' {
                    self.insert_char(*c);
                    return Some(false);
                }
            },
            HTMLToken::StartTag { tag, attributes, .. } => {
                if str_eq(tag.as_str(), "body") {
                    self.insert_element(tag.as_str(), duplicate_attributes(attributes));
                    self.mode = InsertionMode::InBody;
                    return Some(false);
                }
            },
            HTMLToken::Eof => {
                return Some(true);
            },
            _ => {},
        }
        let no_attributes: Vec<Attribute> = Vec::new();
        assert(attribute_views(no_attributes@) =~= Seq::empty());
        self.insert_element("body", no_attributes);
        self.mode = InsertionMode::InBody;
        None
    }

    /// `InBody`: a `p` start tag is inserted and other start tags are
    /// dropped; a `body` end tag closes the body if one is open; an `html`
    /// end tag closes the body and the document if the body is the
    /// innermost open element, and is then handled in `AfterBody`;
    /// characters are inserted.
    fn in_body(&mut self, token: &HTMLToken) -> (r: Option<bool>)
        requires
            old(self).wf(),
            old(self).builder().mode == InsertionMode::InBody,
        ensures
            final(self).wf(),
            final(self).tokenizer() == old(self).tokenizer(),
            handles(old(self).builder(), token@, final(self).builder(), r),
    {
        proof {
            lemma_name_round_trip(ElementKind::P);
        }
        match token {
            HTMLToken::StartTag { tag, attributes, .. } => {
                if str_eq(tag.as_str(), "p") {
                    self.insert_element(tag.as_str(), duplicate_attributes(attributes));
                }
                Some(false)
            },
            HTMLToken::EndTag { tag } => {
                if str_eq(tag.as_str(), "body") {
                    self.mode = InsertionMode::AfterBody;
                    if self.contain_in_stack(ElementKind::Body) {
                        self.pop_until(ElementKind::Body);
                    }
                    return Some(false);
                }
                if str_eq(tag.as_str(), "html") {
                    if self.pop_current_node(ElementKind::Body) {
                        self.mode = InsertionMode::AfterBody;
                        let popped = self.pop_current_node(ElementKind::Html);
                        assert(popped);
                        return None;
                    }
                }
                Some(false)
            },
            HTMLToken::Char(c) => {
                self.insert_char(*c);
                Some(false)
            },
            HTMLToken::Eof => Some(true),
        }
    }

    /// `Text`: characters are inserted; a `style` or `script` end tag
    /// closes that element, if one is open, and the mode from before
    /// returns; any other tag is handled in the mode from before.
    fn in_text(&mut self, token: &HTMLToken) -> (r: Option<bool>)
        requires
            old(self).wf(),
            old(self).builder().mode == InsertionMode::Text,
        ensures
            final(self).wf(),
            final(self).tokenizer() == old(self).tokenizer(),
            handles(old(self).builder(), token@, final(self).builder(), r),
    {
        match token {
            HTMLToken::Eof => {
                return Some(true);
            },
            HTMLToken::EndTag { tag } => {
                if str_eq(tag.as_str(), "style") {
                    if self.contain_in_stack(ElementKind::Style) {
                        self.pop_until(ElementKind::Style);
                    }
                    self.mode = self.original_insertion_mode;
                    return Some(false);
                }
                if str_eq(tag.as_str(), "script") {
                    if self.contain_in_stack(ElementKind::Script) {
                        self.pop_until(ElementKind::Script);
                    }
                    self.mode = self.original_insertion_mode;
                    return Some(false);
                }
            },
            HTMLToken::Char(c) => {
                self.insert_char(*c);
                return Some(false);
            },
            _ => {},
        }
        self.mode = self.original_insertion_mode;
        None
    }

    /// `AfterBody`: characters are ignored; an `html` end tag leads to
    /// `AfterAfterBody`; any other tag is handled in `InBody`.
    fn in_after_body(&mut self, token: &HTMLToken) -> (r: Option<bool>)
        requires
            old(self).wf(),
            old(self).builder().mode == InsertionMode::AfterBody,
        ensures
            final(self).wf(),
            final(self).tokenizer() == old(self).tokenizer(),
            handles(old(self).builder(), token@, final(self).builder(), r),
    {
        match token {
            HTMLToken::Char(_) => {
                return Some(false);
            },
            HTMLToken::EndTag { tag } => {
                if str_eq(tag.as_str(), "html") {
                    self.mode = InsertionMode::AfterAfterBody;
                    return Some(false);
                }
            },
            HTMLToken::Eof => {
                return Some(true);
            },
            _ => {},
        }
        self.mode = InsertionMode::InBody;
        None
    }

    /// `AfterAfterBody`: characters are ignored; any tag is handled in
    /// `InBody`.
    fn in_after_after_body(&mut self, token: &HTMLToken) -> (r: Option<bool>)
        requires
            old(self).wf(),
            old(self).builder().mode == InsertionMode::AfterAfterBody,
        ensures
            final(self).wf(),
            final(self).tokenizer() == old(self).tokenizer(),
            handles(old(self).builder(), token@, final(self).builder(), r),
    {
        match token {
            HTMLToken::Char(_) => {
                return Some(false);
            },
            HTMLToken::Eof => {
                return Some(true);
            },
            _ => {},
        }
        self.mode = InsertionMode::InBody;
        None
    }

    /// Handles one token: takes it in the current mode, or changes the mode
    /// and handles it again there, until it is taken. Returns whether the
    /// token ended the construction.
    fn handle_token(&mut self, token: &HTMLToken) -> (finished: bool)
        requires
            old(self).wf(),
        ensures
            final(self).wf(),
            final(self).tokenizer() == old(self).tokenizer(),
            (Handled { model: final(self).builder(), finished }) == old(self).builder().handle(
                token@,
            ),
    {
        loop
            invariant
                self.wf(),
                self.tokenizer() == old(self).tokenizer(),
                self.builder().handle(token@) == old(self).builder().handle(token@),
            decreases self.builder().retries(token@),
        {
            let taken = match self.mode {
                InsertionMode::Initial => self.in_initial(token),
                InsertionMode::BeforeHtml => self.in_before_html(token),
                InsertionMode::BeforeHead => self.in_before_head(token),
                InsertionMode::InHead => self.in_head(token),
                InsertionMode::AfterHead => self.in_after_head(token),
                InsertionMode::InBody => self.in_body(token),
                InsertionMode::Text => self.in_text(token),
                InsertionMode::AfterBody => self.in_after_body(token),
                InsertionMode::AfterAfterBody => self.in_after_after_body(token),
            };
            match taken {
                Some(finished) => {
                    return finished;
                },
                None => {},
            }
        }
    }

    /// Builds the document tree: reads tokens until one ends the
    /// construction or none is left, and hands out the window that owns the
    /// tree.
    pub fn construct_tree(self) -> (window: Window)
        requires
            self.wf(),
        ensures
            window@ == build(self.builder(), self.tokenizer()),
            tree_wf(window@),
    {
        let mut parser = self;
        loop
            invariant
                parser.wf(),
                build(parser.builder(), parser.tokenizer()) == build(
                    self.builder(),
                    self.tokenizer(),
                ),
            decreases
                    parser.tokenizer().input.len() - parser.tokenizer().pos,
                    turns_without_reading(parser.tokenizer()),
        {
            let ghost before = parser.tokenizer();
            proof {
                lemma_next_decreases(before);
            }
            let token = match parser.t.next() {
                Some(token) => token,
                None => {
                    return parser.window;
                },
            };
            if parser.handle_token(&token) {
                return parser.window;
            }
        }
    }
}

} // verus!
