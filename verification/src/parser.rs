//! The parser: recursive descent over the token sequence, with an explicit
//! cursor and one-token pushback, building the document tree while validating
//! matching open and close tags.  The whole grammar is stated once as the
//! specification functions [`spec_tag`], [`spec_children`] and [`spec_parse`];
//! the executable parser provably computes exactly what they describe.

use vstd::prelude::*;

use crate::dom::arena_wf_at;
use crate::dom::arena_wf_from;
use crate::dom::region_linked_at;
use crate::dom::lemma_subtree_frame;
use crate::dom::lemma_subtrees_elts;
use crate::dom::subtree_at;
use crate::dom::subtree_list;
use crate::dom::subtrees_at;
use crate::dom::Dom;
use crate::lexer::Position;
use crate::lexer::Token;
use crate::lexer::TokenType;
use crate::lexer::TokenV;
use crate::lexer::tokens_view;
use crate::node::attrs_insert;
use crate::node::attrs_unique;
use crate::node::attrs_view;
use crate::node::insert_attr;
use crate::node::nodes_view;
use crate::node::BodyV;
use crate::node::Node;
use crate::node::NodeType;
use crate::node::NodeTypeV;
use crate::node::NodeV;

verus! {

broadcast use vstd::seq::group_seq_axioms, vstd::seq_lib::group_seq_lib_default;

/// Everything that can make parsing fail.
#[derive(Debug, Clone, PartialEq)]
pub enum ParseError {
    /// A token of an unexpected kind stood where a grammar rule needed
    /// another; carries the offending token's kind and position.
    UnexpectedToken(TokenType, Position),
    /// A tag was never properly closed; carries the opening tag's name and
    /// position, so the diagnostic points at the tag left unterminated.
    UnclosedTag(String, Position),
    /// The tokens ran out at a point with no enclosing tag to blame.
    UnexpectedEndOfFile,
}

/// The mathematical image of a [`ParseError`].
pub enum ParseErrV {
    UnexpectedToken(TokenType, Position),
    UnclosedTag(Seq<char>, Position),
    UnexpectedEndOfFile,
}

impl View for ParseError {
    type V = ParseErrV;

    open spec fn view(&self) -> ParseErrV {
        match self {
            ParseError::UnexpectedToken(t, p) => ParseErrV::UnexpectedToken(*t, *p),
            ParseError::UnclosedTag(s, p) => ParseErrV::UnclosedTag(s@, *p),
            ParseError::UnexpectedEndOfFile => ParseErrV::UnexpectedEndOfFile,
        }
    }
}

/// What demanding one token of the given kind at the cursor yields: the
/// token, or the offending token's kind and position, or end-of-input.
pub open spec fn spec_expect(toks: Seq<TokenV>, cur: int, kind: TokenType) -> Result<
    TokenV,
    ParseErrV,
> {
    if 0 <= cur < toks.len() {
        if toks[cur].kind == kind {
            Ok(toks[cur])
        } else {
            Err(ParseErrV::UnexpectedToken(toks[cur].kind, toks[cur].pos))
        }
    } else {
        Err(ParseErrV::UnexpectedEndOfFile)
    }
}

/// The attribute loop: `identifier '=' (identifier|literal)` pairs folded
/// into the accumulated mapping until a close-angle (not self-closing, not
/// consumed) or a stroke (self-closing, consumed) stops it.
pub open spec fn spec_attributes(
    toks: Seq<TokenV>,
    cur: int,
    acc: Seq<(Seq<char>, Seq<char>)>,
) -> Result<(bool, Seq<(Seq<char>, Seq<char>)>, int), ParseErrV>
    decreases toks.len() - cur,
{
    if 0 <= cur < toks.len() && toks[cur].kind == TokenType::RightAngle {
        Ok((false, acc, cur))
    } else if 0 <= cur < toks.len() && toks[cur].kind == TokenType::Stroke {
        Ok((true, acc, cur + 1))
    } else {
        match spec_expect(toks, cur, TokenType::Identifier) {
            Err(e) => Err(e),
            Ok(keytok) => match spec_expect(toks, cur + 1, TokenType::Equals) {
                Err(e) => Err(e),
                Ok(_) => {
                    if cur + 2 < toks.len() && (toks[cur + 2].kind == TokenType::Identifier
                        || toks[cur + 2].kind == TokenType::Literal) {
                        spec_attributes(
                            toks,
                            cur + 3,
                            attrs_insert(acc, keytok.content, toks[cur + 2].content),
                        )
                    } else if cur + 2 < toks.len() {
                        Err(ParseErrV::UnexpectedToken(toks[cur + 2].kind, toks[cur + 2].pos))
                    } else {
                        Err(ParseErrV::UnexpectedEndOfFile)
                    }
                },
            },
        }
    }
}

/// The required closing tag: `'<' '/' identifier '>'`, whose identifier must
/// equal the opening tag's name.  End-of-input at the open angle, or a name
/// mismatch, is reported as an unclosed tag naming the opening tag.
pub open spec fn spec_closing(
    toks: Seq<TokenV>,
    cur: int,
    node: NodeV,
    tag_name: Seq<char>,
    tag_pos: Position,
) -> Result<(NodeV, int), ParseErrV> {
    match spec_expect(toks, cur, TokenType::LeftAngle) {
        Err(ParseErrV::UnexpectedEndOfFile) => Err(ParseErrV::UnclosedTag(tag_name, tag_pos)),
        Err(e) => Err(e),
        Ok(_) => match spec_expect(toks, cur + 1, TokenType::Stroke) {
            Err(e) => Err(e),
            Ok(_) => match spec_expect(toks, cur + 2, TokenType::Identifier) {
                Err(e) => Err(e),
                Ok(close) => {
                    if close.content != tag_name {
                        Err(ParseErrV::UnclosedTag(tag_name, tag_pos))
                    } else {
                        match spec_expect(toks, cur + 3, TokenType::RightAngle) {
                            Err(e) => Err(e),
                            Ok(_) => Ok((node, cur + 4)),
                        }
                    }
                },
            },
        },
    }
}

/// One whole tag: `'<' identifier attributes '>'`, then either a bare
/// identifier as text content, or nested tags as children, then the closing
/// tag unless the attributes ended self-closed.
pub open spec fn spec_tag(toks: Seq<TokenV>, cur: int) -> Result<(NodeV, int), ParseErrV>
    decreases toks.len() - cur, 0int,
{
    match spec_expect(toks, cur, TokenType::LeftAngle) {
        Err(e) => Err(e),
        Ok(_) => match spec_expect(toks, cur + 1, TokenType::Identifier) {
            Err(e) => Err(e),
            Ok(tagtok) => match spec_attributes(toks, cur + 2, Seq::empty()) {
                Err(e) => Err(e),
                Ok((closed, attrs, c3)) => {
                    if !(cur + 2 <= c3 <= toks.len()) {
                        Err(ParseErrV::UnexpectedEndOfFile)
                    } else {
                        match spec_expect(toks, c3, TokenType::RightAngle) {
                            Err(e) => Err(e),
                            Ok(_) => {
                                let c4 = c3 + 1;
                                let tag_name = tagtok.content;
                                let tag_pos = tagtok.pos;
                                if closed {
                                    Ok(
                                        (
                                            NodeV {
                                                tag: tag_name,
                                                attrs,
                                                body: BodyV::Element(Seq::empty()),
                                            },
                                            c4,
                                        ),
                                    )
                                } else if c4 < toks.len() && toks[c4].kind
                                    == TokenType::Identifier {
                                    spec_closing(
                                        toks,
                                        c4 + 1,
                                        NodeV {
                                            tag: tag_name,
                                            attrs,
                                            body: BodyV::Text(toks[c4].content),
                                        },
                                        tag_name,
                                        tag_pos,
                                    )
                                } else if c4 < toks.len() && toks[c4].kind
                                    == TokenType::LeftAngle {
                                    if c4 + 1 < toks.len() && toks[c4 + 1].kind
                                        == TokenType::Stroke {
                                        spec_closing(
                                            toks,
                                            c4,
                                            NodeV {
                                                tag: tag_name,
                                                attrs,
                                                body: BodyV::Element(Seq::empty()),
                                            },
                                            tag_name,
                                            tag_pos,
                                        )
                                    } else {
                                        match spec_children(toks, c4, tag_name, tag_pos) {
                                            Err(e) => Err(e),
                                            Ok((kids, c5)) => {
                                                if !(c4 < c5 <= toks.len()) {
                                                    Err(ParseErrV::UnexpectedEndOfFile)
                                                } else {
                                                    spec_closing(
                                                        toks,
                                                        c5,
                                                        NodeV {
                                                            tag: tag_name,
                                                            attrs,
                                                            body: BodyV::Element(kids),
                                                        },
                                                        tag_name,
                                                        tag_pos,
                                                    )
                                                }
                                            },
                                        }
                                    }
                                } else {
                                    spec_closing(
                                        toks,
                                        c4,
                                        NodeV {
                                            tag: tag_name,
                                            attrs,
                                            body: BodyV::Text(Seq::empty()),
                                        },
                                        tag_name,
                                        tag_pos,
                                    )
                                }
                            },
                        }
                    }
                },
            },
        },
    }
}

/// The child loop: one nested tag after another, stopping when a closing tag
/// (`'<' '/'`) comes next.  A nested parse that fails with end-of-input is
/// rewritten as an unclosed tag naming the enclosing tag.
pub open spec fn spec_children(
    toks: Seq<TokenV>,
    cur: int,
    ptag: Seq<char>,
    ppos: Position,
) -> Result<(Seq<NodeV>, int), ParseErrV>
    decreases toks.len() - cur, 1int,
{
    match spec_tag(toks, cur) {
        Err(ParseErrV::UnexpectedEndOfFile) => Err(ParseErrV::UnclosedTag(ptag, ppos)),
        Err(e) => Err(e),
        Ok((child, rc)) => {
            if !(cur < rc <= toks.len()) {
                Err(ParseErrV::UnexpectedEndOfFile)
            } else if rc < toks.len() && toks[rc].kind == TokenType::LeftAngle && rc + 1
                < toks.len() && toks[rc + 1].kind == TokenType::Stroke {
                Ok((seq![child], rc))
            } else {
                match spec_children(toks, rc, ptag, ppos) {
                    Err(e) => Err(e),
                    Ok((rest, c2)) => Ok((seq![child] + rest, c2)),
                }
            }
        },
    }
}

/// The cursor after discarding a declaration's tokens: just past the first
/// close-angle at or after `cur`, or the end of the tokens.
pub open spec fn skip_declaration(toks: Seq<TokenV>, cur: int) -> int
    decreases toks.len() - cur,
{
    if cur < 0 || cur >= toks.len() {
        toks.len() as int
    } else if toks[cur].kind == TokenType::RightAngle {
        cur + 1
    } else {
        skip_declaration(toks, cur + 1)
    }
}

/// The whole document: an optional `'<' '!' ... '>'` declaration, discarded,
/// then the root tag.
pub open spec fn spec_parse(toks: Seq<TokenV>, cur: int) -> Result<(NodeV, int), ParseErrV> {
    if 0 <= cur < toks.len() && toks[cur].kind == TokenType::LeftAngle && cur + 1 < toks.len()
        && toks[cur + 1].kind == TokenType::Bang {
        spec_tag(toks, skip_declaration(toks, cur + 1))
    } else {
        spec_tag(toks, cur)
    }
}

/// A copy of a token with the same view.
fn clone_token(t: &Token) -> (r: Token)
    ensures
        r@ == t@,
{
    Token { token_type: t.token_type, position: t.position, content: t.content.clone() }
}

/// The recursive-descent parser: a cursor over a borrowed token list.
pub struct Parser<'a> {
    current: usize,
    tokens: &'a Vec<Token>,
}

impl<'a> Parser<'a> {
    /// The tokens, as a mathematical sequence.
    pub closed spec fn toks(&self) -> Seq<TokenV> {
        tokens_view(self.tokens@)
    }

    /// The cursor.
    pub closed spec fn cur(&self) -> int {
        self.current as int
    }

    /// The cursor never outruns the tokens, whose number fits the machine.
    pub open spec fn wf(&self) -> bool {
        0 <= self.cur() <= self.toks().len() <= usize::MAX
    }

    /// A parser over the given tokens, at the start.
    pub fn new(tokens: &'a Vec<Token>) -> (p: Parser<'a>)
        ensures
            p.toks() == tokens_view(tokens@),
            p.cur() == 0,
            p.wf(),
    {
        proof {
            assert(tokens@.len() == tokens.len());
        }
        Parser { current: 0, tokens }
    }

    /// The token at the cursor, if any.
    fn peek(&self) -> (r: Option<&Token>)
        ensures
            match r {
                Some(t) => self.cur() < self.toks().len() && t@ == self.toks()[self.cur()],
                None => self.cur() >= self.toks().len(),
            },
    {
        if self.current < self.tokens.len() {
            Some(&self.tokens[self.current])
        } else {
            None
        }
    }

    /// Whether the token at the cursor has the given kind.
    fn check(&self, token_type: TokenType) -> (r: bool)
        ensures
            r == (self.cur() < self.toks().len() && self.toks()[self.cur()].kind == token_type),
    {
        if self.current < self.tokens.len() {
            self.tokens[self.current].token_type == token_type
        } else {
            false
        }
    }

    /// If the token at the cursor has one of the given kinds, consume it.
    fn match_tokens(&mut self, kinds: &[TokenType]) -> (r: bool)
        requires
            old(self).wf(),
        ensures
            final(self).wf(),
            final(self).toks() == old(self).toks(),
            ({
                let hit = old(self).cur() < old(self).toks().len() && kinds@.contains(
                    old(self).toks()[old(self).cur()].kind,
                );
                if hit {
                    r && final(self).cur() == old(self).cur() + 1
                } else {
                    !r && final(self).cur() == old(self).cur()
                }
            }),
    {
        if self.current < self.tokens.len() {
            let n = kinds.len();
            let mut i: usize = 0;
            while i < n
                invariant
                    self.wf(),
                    self == old(self),
                    i <= n,
                    n == kinds@.len(),
                    self.cur() < self.toks().len(),
                    forall|j: int|
                        0 <= j < i ==> kinds@[j] != self.toks()[self.cur()].kind,
                decreases n - i,
            {
                if kinds[i] == self.tokens[self.current].token_type {
                    self.current = self.current + 1;
                    return true;
                }
                i = i + 1;
            }
            false
        } else {
            false
        }
    }

    /// Step the cursor past the current token.
    fn advance(&mut self)
        requires
            old(self).wf(),
            old(self).cur() < old(self).toks().len(),
        ensures
            final(self).wf(),
            final(self).toks() == old(self).toks(),
            final(self).cur() == old(self).cur() + 1,
    {
        self.current = self.current + 1;
    }

    /// The token just consumed.
    fn previous(&self) -> (r: &Token)
        requires
            1 <= self.cur() <= self.toks().len(),
        ensures
            r@ == self.toks()[self.cur() - 1],
    {
        &self.tokens[self.current - 1]
    }

    /// Push the cursor back one token.
    fn back(&mut self)
        requires
            old(self).cur() >= 1,
            old(self).wf(),
        ensures
            final(self).wf(),
            final(self).toks() == old(self).toks(),
            final(self).cur() == old(self).cur() - 1,
    {
        self.current = self.current - 1;
    }

    /// Demand one token of the given kind: consume and return it, or report
    /// the offending token or the end of input without consuming.
    fn expect(&mut self, token_type: TokenType) -> (r: Result<Token, ParseError>)
        requires
            old(self).wf(),
        ensures
            final(self).wf(),
            final(self).toks() == old(self).toks(),
            match spec_expect(old(self).toks(), old(self).cur(), token_type) {
                Ok(tv) => r matches Ok(t) && t@ == tv && final(self).cur() == old(self).cur()
                    + 1,
                Err(ev) => r matches Err(e) && e@ == ev && final(self).cur() == old(self).cur(),
            },
    {
        if self.check(token_type) {
            self.advance();
            let t = self.previous();
            Ok(clone_token(t))
        } else {
            match self.peek() {
                Some(tok) => Err(ParseError::UnexpectedToken(tok.token_type, tok.position)),
                None => Err(ParseError::UnexpectedEndOfFile),
            }
        }
    }

    /// The attribute loop: consume `identifier '=' (identifier|literal)`
    /// pairs into the mapping until close-angle (stop) or stroke
    /// (self-closing).
    fn attributes(&mut self) -> (r: Result<(bool, Vec<(String, String)>), ParseError>)
        requires
            old(self).wf(),
        ensures
            final(self).wf(),
            final(self).toks() == old(self).toks(),
            match r {
                Ok(pair) => {
                    &&& attrs_unique(attrs_view(pair.1@))
                    &&& old(self).cur() <= final(self).cur() <= old(self).toks().len()
                    &&& spec_attributes(old(self).toks(), old(self).cur(), Seq::empty())
                        == Ok::<_, ParseErrV>(
                        (pair.0, attrs_view(pair.1@), final(self).cur()),
                    )
                },
                Err(e) => spec_attributes(old(self).toks(), old(self).cur(), Seq::empty())
                    == Err::<(bool, Seq<(Seq<char>, Seq<char>)>, int), _>(e@),
            },
    {
        let ghost toks = self.toks();
        let ghost c0 = self.cur();
        let mut attrs: Vec<(String, String)> = Vec::new();
        proof {
            assert(attrs_view(attrs@) =~= Seq::<(Seq<char>, Seq<char>)>::empty());
        }
        loop
            invariant
                self.wf(),
                self.toks() == toks,
                toks == old(self).toks(),
                c0 == old(self).cur(),
                c0 <= self.cur() <= toks.len(),
                attrs_unique(attrs_view(attrs@)),
                spec_attributes(toks, c0, Seq::empty()) == spec_attributes(
                    toks,
                    self.cur(),
                    attrs_view(attrs@),
                ),
            decreases toks.len() - self.cur(),
        {
            if self.check(TokenType::RightAngle) {
                return Ok((false, attrs));
            }
            if self.check(TokenType::Stroke) {
                self.advance();
                return Ok((true, attrs));
            }
            let key = match self.expect(TokenType::Identifier) {
                Ok(t) => t,
                Err(e) => {
                    return Err(e);
                },
            };
            match self.expect(TokenType::Equals) {
                Ok(_) => (),
                Err(e) => {
                    return Err(e);
                },
            };
            if self.match_tokens(&[TokenType::Identifier, TokenType::Literal]) {
                let value = clone_token(self.previous()).content;
                insert_attr(&mut attrs, key.content, value);
            } else {
                match self.peek() {
                    Some(tok) => {
                        return Err(
                            ParseError::UnexpectedToken(tok.token_type, tok.position),
                        );
                    },
                    None => {
                        return Err(ParseError::UnexpectedEndOfFile);
                    },
                }
            }
        }
    }

    /// One whole tag, appended into the arena: the node itself is reserved
    /// first, its children follow it, and the finished node is written back,
    /// so every child index is strictly greater than its parent's.
    #[verifier::rlimit(100)]
    fn tag(&mut self, nodes: &mut Vec<Node>, parent_link: Option<usize>) -> (r: Result<
        usize,
        ParseError,
    >)
        requires
            old(self).wf(),
        ensures
            final(self).wf(),
            final(self).toks() == old(self).toks(),
            final(nodes)@.len() >= old(nodes)@.len(),
            nodes_view(final(nodes)@).subrange(0, old(nodes)@.len() as int) == nodes_view(
                old(nodes)@,
            ),
            match r {
                Ok(id) => {
                    &&& id == old(nodes)@.len()
                    &&& final(nodes)@.len() > old(nodes)@.len()
                    &&& old(self).cur() < final(self).cur() <= old(self).toks().len()
                    &&& arena_wf_from(nodes_view(final(nodes)@), old(nodes)@.len() as int)
                    &&& nodes_view(final(nodes)@)[id as int].parent == parent_link
                    &&& forall|k: int|
                        old(nodes)@.len() < k < final(nodes)@.len()
                            ==> #[trigger] region_linked_at(
                            nodes_view(final(nodes)@),
                            old(nodes)@.len() as int,
                            k,
                        )
                    &&& spec_tag(old(self).toks(), old(self).cur()) == Ok::<_, ParseErrV>(
                        (
                            subtree_at(nodes_view(final(nodes)@), id as int),
                            final(self).cur(),
                        ),
                    )
                },
                Err(e) => spec_tag(old(self).toks(), old(self).cur()) == Err::<
                    (NodeV, int),
                    _,
                >(e@),
            },
        decreases self.toks().len() - self.cur(), 0int,
    {
        let ghost toks = self.toks();
        let ghost c0 = self.cur();
        match self.expect(TokenType::LeftAngle) {
            Ok(_) => (),
            Err(e) => {
                return Err(e);
            },
        };
        let tagtok = match self.expect(TokenType::Identifier) {
            Ok(t) => t,
            Err(e) => {
                return Err(e);
            },
        };
        let ghost tagv = tagtok@;
        let tag_pos = tagtok.position;
        let tag_name = tagtok.content;
        let (closed, attrs) = match self.attributes() {
            Ok(x) => x,
            Err(e) => {
                return Err(e);
            },
        };
        let ghost attrsv = attrs_view(attrs@);
        match self.expect(TokenType::RightAngle) {
            Ok(_) => (),
            Err(e) => {
                return Err(e);
            },
        };
        let ghost c4 = self.cur();
        let id = nodes.len();
        let ghost base = nodes_view(nodes@);
        nodes.push(Node::new(tag_name.clone()));
        proof {
            assert(nodes_view(nodes@).subrange(0, id as int) =~= base);
        }
        if closed {
            let finished = Node {
                tag_name,
                node_type: NodeType::Element,
                children: Vec::new(),
                parent: parent_link,
                attributes: attrs,
            };
            nodes[id] = finished;
            proof {
                let nv = nodes_view(nodes@);
                assert(nv.subrange(0, id as int) =~= base);
                assert(nv[id as int].children =~= Seq::<usize>::empty());
                assert(subtrees_at(nv, nv[id as int].children, id as int) =~= Seq::<
                    NodeV,
                >::empty());
                assert(subtree_at(nv, id as int) == (NodeV {
                    tag: tagv.content,
                    attrs: attrsv,
                    body: BodyV::Element(Seq::empty()),
                }));
                assert forall|i: int| id as int <= i < nv.len() implies arena_wf_at(nv, i) by {
                    assert(i == id as int);
                    assert(nv[i].children.len() == 0);
                }
            }
            return Ok(id);
        }
        let mut ntype: NodeType = NodeType::Text(String::new());
        let mut kid_ids: Vec<usize> = Vec::new();
        let ghost mut bodyv: BodyV = BodyV::Text(Seq::empty());
        if self.check(TokenType::Identifier) {
            self.advance();
            let content = clone_token(self.previous()).content;
            proof {
                bodyv = BodyV::Text(content@);
            }
            ntype = NodeType::Text(content);
        } else if self.check(TokenType::LeftAngle) {
            self.advance();
            ntype = NodeType::Element;
            if self.check(TokenType::Stroke) {
                self.back();
                proof {
                    bodyv = BodyV::Element(Seq::empty());
                }
            } else {
                self.back();
                kid_ids = match self.children(nodes, id, &tag_name, tag_pos) {
                    Ok(v) => v,
                    Err(e) => {
                        proof {
                            assert(spec_tag(toks, c0) == Err::<(NodeV, int), ParseErrV>(e@));
                        }
                        return Err(e);
                    },
                };
                proof {
                    bodyv = BodyV::Element(subtree_list(nodes_view(nodes@), kid_ids@));
                }
            }
        }
        let ghost mid = nodes_view(nodes@);
        let ghost ccl = self.cur();
        let ghost nodev = NodeV { tag: tagv.content, attrs: attrsv, body: bodyv };
        proof {
            assert(spec_tag(toks, c0) == spec_closing(toks, ccl, nodev, tagv.content, tagv.pos));
        }
        match self.expect(TokenType::LeftAngle) {
            Ok(_) => (),
            Err(e) => {
                if matches!(e, ParseError::UnexpectedEndOfFile) {
                    return Err(ParseError::UnclosedTag(tag_name, tag_pos));
                }
                return Err(e);
            },
        };
        match self.expect(TokenType::Stroke) {
            Ok(_) => (),
            Err(e) => {
                return Err(e);
            },
        };
        let close_tag = match self.expect(TokenType::Identifier) {
            Ok(t) => t,
            Err(e) => {
                return Err(e);
            },
        };
        if !(close_tag.content == tag_name) {
            return Err(ParseError::UnclosedTag(tag_name, tag_pos));
        }
        match self.expect(TokenType::RightAngle) {
            Ok(_) => (),
            Err(e) => {
                return Err(e);
            },
        };
        proof {
            assert(spec_closing(toks, ccl, nodev, tagv.content, tagv.pos) == Ok::<
                (NodeV, int),
                ParseErrV,
            >((nodev, self.cur())));
        }
        let ghost kv = kid_ids@;
        let finished = Node {
            tag_name,
            node_type: ntype,
            children: kid_ids,
            parent: parent_link,
            attributes: attrs,
        };
        nodes[id] = finished;
        proof {
            let nv = nodes_view(nodes@);
            let idi = id as int;
            assert(nv.subrange(0, idi) =~= base);
            assert(forall|j: int| idi < j < mid.len() ==> nv[j] == mid[j]);
            if nv[idi].node_type is Element && kv.len() > 0 {
                assert forall|j: int| 0 <= j < kv.len() implies idi < (#[trigger] kv[j] as int)
                    < mid.len() && nv[kv[j] as int] == mid[kv[j] as int] by {}
                assert forall|j: int| 0 <= j < kv.len() implies #[trigger] subtree_at(
                    nv,
                    kv[j] as int,
                ) == subtree_at(mid, kv[j] as int) by {
                    lemma_subtree_frame(mid, nv, kv[j] as int);
                }
                lemma_subtrees_elts(nv, kv, idi);
                lemma_subtrees_elts(mid, kv, idi);
                assert(subtrees_at(nv, kv, idi) =~= subtree_list(mid, kv));
            } else {
                assert(subtrees_at(nv, kv, idi) =~= Seq::<NodeV>::empty());
            }
            assert(nv[idi].tag == nodev.tag);
            assert(nv[idi].attrs == nodev.attrs);
            match nv[idi].node_type {
                NodeTypeV::Text(s) => {
                    assert(bodyv == BodyV::Text(s));
                },
                NodeTypeV::Element => {
                    if kv.len() > 0 {
                        assert(bodyv == BodyV::Element(subtree_list(mid, kv)));
                        assert(subtree_list(mid, kv) == subtrees_at(nv, kv, idi));
                    } else {
                        assert(subtree_list(mid, kv) =~= Seq::<NodeV>::empty());
                        assert(bodyv == BodyV::Element(Seq::empty()));
                    }
                    assert(bodyv == BodyV::Element(subtrees_at(nv, kv, idi)));
                },
            }
            assert(subtree_at(nv, idi) == nodev);
            assert forall|i: int| idi <= i < nv.len() implies arena_wf_at(nv, i) by {
                if i == idi {
                    assert forall|j: int|
                        0 <= j < nv[i].children.len() implies i < (#[trigger] nv[i].children[j]) as int
                        && (nv[i].children[j] as int) < nv.len()
                        && nv[nv[i].children[j] as int].parent == Some(i as usize) by {
                        assert(nv[i].children == kv);
                        assert(mid[kv[j] as int].parent == Some(id));
                        assert(nv[kv[j] as int] == mid[kv[j] as int]);
                    }
                } else {
                    assert(arena_wf_at(mid, i));
                    assert(nv[i] == mid[i]);
                    assert forall|j: int|
                        0 <= j < nv[i].children.len() implies i < (#[trigger] nv[i].children[j]) as int
                        && (nv[i].children[j] as int) < nv.len()
                        && nv[nv[i].children[j] as int].parent == Some(i as usize) by {
                        let c = mid[i].children[j] as int;
                        assert(c > i);
                        assert(nv[c] == mid[c]);
                    }
                }
            }
            assert forall|k: int| idi < k < nv.len() implies #[trigger] region_linked_at(
                nv,
                idi,
                k,
            ) by {
                if mid[k].parent == Some(id) && kv.contains(k as usize) {
                    assert(nv[k] == mid[k]);
                    assert(nv[idi].children == kv);
                } else {
                    assert(region_linked_at(mid, idi + 1, k));
                    let p = mid[k].parent->Some_0;
                    assert(nv[k] == mid[k]);
                    assert(nv[p as int] == mid[p as int]);
                }
            }
        }
        Ok(id)
    }

    /// The child loop, as recursion mirroring [`spec_children`]: one nested
    /// tag, then either stop before a closing tag or parse the rest.
    fn children(
        &mut self,
        nodes: &mut Vec<Node>,
        parent_id: usize,
        ptag: &String,
        ppos: Position,
    ) -> (r: Result<Vec<usize>, ParseError>)
        requires
            old(self).wf(),
            (parent_id as int) < old(nodes)@.len(),
        ensures
            final(self).wf(),
            final(self).toks() == old(self).toks(),
            final(nodes)@.len() >= old(nodes)@.len(),
            nodes_view(final(nodes)@).subrange(0, old(nodes)@.len() as int) == nodes_view(
                old(nodes)@,
            ),
            match r {
                Ok(ids) => {
                    &&& old(self).cur() < final(self).cur() <= old(self).toks().len()
                    &&& arena_wf_from(nodes_view(final(nodes)@), old(nodes)@.len() as int)
                    &&& forall|j: int|
                        0 <= j < ids@.len() ==> old(nodes)@.len() <= (#[trigger] ids@[j] as int)
                            < final(nodes)@.len()
                    &&& forall|j: int|
                        0 <= j < ids@.len() ==> nodes_view(final(nodes)@)[(
                        #[trigger] ids@[j]) as int].parent == Some(parent_id)
                    &&& forall|k: int|
                        old(nodes)@.len() <= k < final(nodes)@.len() ==> ((nodes_view(
                            final(nodes)@,
                        )[k].parent == Some(parent_id) && ids@.contains(k as usize))
                            || #[trigger] region_linked_at(
                            nodes_view(final(nodes)@),
                            old(nodes)@.len() as int,
                            k,
                        ))
                    &&& spec_children(old(self).toks(), old(self).cur(), ptag@, ppos) == Ok::<
                        _,
                        ParseErrV,
                    >((subtree_list(nodes_view(final(nodes)@), ids@), final(self).cur()))
                },
                Err(e) => spec_children(old(self).toks(), old(self).cur(), ptag@, ppos)
                    == Err::<(Seq<NodeV>, int), _>(e@),
            },
        decreases self.toks().len() - self.cur(), 1int,
    {
        let ghost toks = self.toks();
        let ghost c0 = self.cur();
        let ghost base = nodes_view(nodes@);
        let child_id = match self.tag(nodes, Some(parent_id)) {
            Ok(v) => v,
            Err(e) => {
                if matches!(e, ParseError::UnexpectedEndOfFile) {
                    return Err(ParseError::UnclosedTag(ptag.clone(), ppos));
                }
                return Err(e);
            },
        };
        let ghost mid = nodes_view(nodes@);
        let mut stop = false;
        if self.check(TokenType::LeftAngle) {
            self.advance();
            if self.check(TokenType::Stroke) {
                self.back();
                stop = true;
            } else {
                self.back();
            }
        }
        if stop {
            let mut ids: Vec<usize> = Vec::new();
            ids.push(child_id);
            proof {
                assert(subtree_list(mid, ids@) =~= seq![subtree_at(mid, child_id as int)]);
                assert(ids@[0] == child_id);
                assert forall|k: int|
                    base.len() <= k < mid.len() implies ((mid[k].parent == Some(parent_id)
                    && ids@.contains(k as usize)) || #[trigger] region_linked_at(
                    mid,
                    base.len() as int,
                    k,
                )) by {
                    if k == child_id as int {
                        assert(ids@.contains(k as usize));
                    } else {
                        assert(region_linked_at(mid, child_id as int, k));
                    }
                }
            }
            return Ok(ids);
        }
        let rest = match self.children(nodes, parent_id, ptag, ppos) {
            Ok(v) => v,
            Err(e) => {
                return Err(e);
            },
        };
        let mut ids: Vec<usize> = Vec::new();
        ids.push(child_id);
        let mut rest_mut = rest;
        ids.append(&mut rest_mut);
        proof {
            let fin = nodes_view(nodes@);
            assert(forall|j: int| child_id as int <= j < mid.len() ==> fin[j] == mid[j]);
            lemma_subtree_frame(mid, fin, child_id as int);
            assert(ids@ =~= seq![child_id] + rest@);
            assert(subtree_list(fin, ids@) =~= seq![subtree_at(fin, child_id as int)]
                + subtree_list(fin, rest@));
            assert(arena_wf_from(fin, base.len() as int)) by {
                assert forall|i: int| base.len() as int <= i < fin.len() implies arena_wf_at(
                    fin,
                    i,
                ) by {
                    if i < mid.len() {
                        assert(arena_wf_at(mid, i));
                        assert forall|j: int|
                            0 <= j < fin[i].children.len() implies i < (#[trigger] fin[i].children[j]) as int
                            && (fin[i].children[j] as int) < fin.len() && fin[fin[i].children[j] as int].parent
                            == Some(i as usize) by {
                            assert(fin[fin[i].children[j] as int] == mid[fin[i].children[j] as int]);
                        }
                    }
                }
            }
            assert forall|k: int|
                base.len() <= k < fin.len() implies ((fin[k].parent == Some(parent_id)
                && ids@.contains(k as usize)) || #[trigger] region_linked_at(
                fin,
                base.len() as int,
                k,
            )) by {
                if k == child_id as int {
                    assert(fin[k] == mid[k]);
                    assert(ids@[0] == child_id);
                    assert(ids@.contains(k as usize));
                } else if k < mid.len() {
                    assert(region_linked_at(mid, child_id as int, k));
                    assert(fin[k] == mid[k]);
                    assert(fin[mid[k].parent->Some_0 as int] == mid[mid[k].parent->Some_0 as int]);
                } else {
                    if fin[k].parent == Some(parent_id) && rest@.contains(k as usize) {
                        let wi = choose|wi: int|
                            0 <= wi < rest@.len() && rest@[wi] == k as usize;
                        assert(ids@[wi + 1] == k as usize);
                        assert(ids@.contains(k as usize));
                    } else {
                        assert(region_linked_at(fin, mid.len() as int, k));
                    }
                }
            }
        }
        Ok(ids)
    }

    /// Parse the whole document: discard a leading `'<' '!' ... '>'`
    /// declaration if one stands first, then parse the root tag into a fresh
    /// arena.  On success the document's tree is exactly what
    /// [`spec_parse`] prescribes for the tokens; on failure the same
    /// definition yields the error, and there is no partial tree.
    pub fn parse(&mut self) -> (r: Result<Dom, ParseError>)
        requires
            old(self).wf(),
        ensures
            final(self).wf(),
            final(self).toks() == old(self).toks(),
            match r {
                Ok(dom) => {
                    &&& dom.wf()
                    &&& dom@.nodes[dom@.root as int].parent is None
                    &&& spec_parse(old(self).toks(), old(self).cur()) == Ok::<_, ParseErrV>(
                        (dom.tree(), final(self).cur()),
                    )
                },
                Err(e) => spec_parse(old(self).toks(), old(self).cur()) == Err::<
                    (NodeV, int),
                    _,
                >(e@),
            },
    {
        let ghost toks = self.toks();
        let ghost c0 = self.cur();
        if self.check(TokenType::LeftAngle) {
            self.advance();
            if self.check(TokenType::Bang) {
                let ghost c1 = self.cur();
                while self.current < self.tokens.len() && !self.check(TokenType::RightAngle)
                    invariant
                        self.wf(),
                        self.toks() == toks,
                        c1 <= self.cur() <= toks.len(),
                        skip_declaration(toks, c1) == skip_declaration(toks, self.cur()),
                    decreases toks.len() - self.cur(),
                {
                    self.advance();
                }
                if self.current < self.tokens.len() {
                    self.advance();
                }
            } else {
                self.back();
            }
        }
        let mut nodes: Vec<Node> = Vec::new();
        let root_id = match self.tag(&mut nodes, None) {
            Ok(v) => v,
            Err(e) => {
                return Err(e);
            },
        };
        let dom = Dom { nodes, root: root_id };
        proof {
            assert forall|i: int| 0 <= i < dom@.nodes.len() implies crate::dom::parent_linked_at(
                dom@.nodes,
                i,
            ) by {
                if i != root_id as int {
                    assert(region_linked_at(dom@.nodes, 0, i));
                }
            }
            assert(dom.wf());
        }
        Ok(dom)
    }
}

} // verus!
