//! The round-trip law: serializing a tree of pure elements and feeding the
//! text back through the lexer and parser reproduces the tree, with the
//! attributes of non-leaf elements dropped — the serializer omits them — and
//! everything else intact.  It covers trees without text content whose tag
//! names are plain alphanumeric identifiers and whose leaf attributes can
//! stand in a quoted literal.

use vstd::calc;
use vstd::prelude::*;

use crate::dom::attrs_render;
use crate::dom::spec_document;
use crate::dom::spec_render;
use crate::dom::spec_render_seq;
use crate::dom::DomErrV;
use crate::lexer::alphanumeric;
use crate::lexer::comment_opens;
use crate::lexer::cons_tok;
use crate::lexer::ident_end;
use crate::lexer::is_ident_char;
use crate::lexer::literal_scan;
use crate::lexer::spec_tokenize;
use crate::lexer::LiteralScan;
use crate::lexer::Position;
use crate::lexer::TokenType;
use crate::lexer::TokenV;
use crate::lexer::TokenizeError;
use crate::node::attrs_unique;
use crate::node::lemma_attrs_insert_at;
use crate::node::BodyV;
use crate::node::NodeV;
use crate::parser::spec_attributes;
use crate::parser::spec_children;
use crate::parser::spec_closing;
use crate::parser::spec_parse;
use crate::parser::spec_tag;
use crate::parser::ParseErrV;

verus! {

broadcast use vstd::seq::group_seq_axioms, vstd::seq_lib::group_seq_lib_default;

/// The facts about `char::is_alphanumeric` that lexing structured text
/// rests on: none of the lexer's structural characters is alphanumeric.
/// They are true of Unicode, but the class is uninterpreted here, so the
/// law carries them as an explicit hypothesis.
pub open spec fn lexer_char_facts() -> bool {
    &&& !alphanumeric('<')
    &&& !alphanumeric('>')
    &&& !alphanumeric('/')
    &&& !alphanumeric('=')
    &&& !alphanumeric('!')
    &&& !alphanumeric('-')
    &&& !alphanumeric(' ')
    &&& !alphanumeric('\n')
    &&& !alphanumeric('\'')
    &&& !alphanumeric('"')
}

/// A tag or attribute name that lexes back as one identifier token:
/// nonempty and alphanumeric throughout.
pub open spec fn plain_name(s: Seq<char>) -> bool {
    s.len() > 0 && forall|k: int| 0 <= k < s.len() ==> alphanumeric(#[trigger] s[k])
}

/// An attribute value that survives a single-quoted literal: free of quotes
/// and newlines, and without a backslash-escaped `n`.
pub open spec fn lit_safe(v: Seq<char>) -> bool {
    &&& forall|k: int| 0 <= k < v.len() ==> (#[trigger] v[k]) != '\'' && v[k] != '\n'
    &&& forall|k: int| 0 <= k < v.len() - 1 ==> !((#[trigger] v[k]) == '\\' && v[k + 1] == 'n')
}

/// An attribute mapping that lexes back intact: unique plain keys bound to
/// literal-safe values.
pub open spec fn attrs_safe(attrs: Seq<(Seq<char>, Seq<char>)>) -> bool {
    &&& attrs_unique(attrs)
    &&& forall|k: int|
        0 <= k < attrs.len() ==> plain_name((#[trigger] attrs[k]).0) && lit_safe(attrs[k].1)
}

/// The trees the law covers: elements only, every tag a plain name, and on
/// childless elements — the only ones whose attributes are serialized — a
/// safe attribute mapping.
pub open spec fn render_safe(t: NodeV) -> bool
    decreases t, 0int,
{
    match t.body {
        BodyV::Text(_) => false,
        BodyV::Element(kids) => {
            if kids.len() == 0 {
                plain_name(t.tag) && attrs_safe(t.attrs)
            } else {
                plain_name(t.tag) && render_safe_list(kids)
            }
        },
    }
}

/// `render_safe`, over a child list.
pub open spec fn render_safe_list(kids: Seq<NodeV>) -> bool
    decreases kids, 1int,
{
    if kids.len() == 0 {
        true
    } else {
        render_safe(kids[0]) && render_safe_list(kids.drop_first())
    }
}

/// What the round trip hands back: the same tree with the attributes of
/// every element that has children erased, exactly as serialization drops
/// them.
pub open spec fn strip(t: NodeV) -> NodeV
    decreases t, 0int,
{
    match t.body {
        BodyV::Text(_) => t,
        BodyV::Element(kids) => {
            if kids.len() == 0 {
                t
            } else {
                NodeV { tag: t.tag, attrs: Seq::empty(), body: BodyV::Element(strip_list(kids)) }
            }
        },
    }
}

/// `strip`, over a child list.
pub open spec fn strip_list(kids: Seq<NodeV>) -> Seq<NodeV>
    decreases kids, 1int,
{
    if kids.len() == 0 {
        Seq::empty()
    } else {
        seq![strip(kids[0])] + strip_list(kids.drop_first())
    }
}

/// A token with the given position fields.
pub open spec fn tv(kind: TokenType, line: int, col: int, content: Seq<char>) -> TokenV {
    TokenV { kind, pos: Position { line: line as usize, col: col as usize }, content }
}

/// The tokens that lexing a rendered attribute mapping produces.
pub open spec fn attr_toks(
    attrs: Seq<(Seq<char>, Seq<char>)>,
    line: int,
    col: int,
) -> Seq<TokenV>
    decreases attrs.len(),
{
    if attrs.len() == 0 {
        Seq::empty()
    } else {
        let key = attrs[0].0;
        let value = attrs[0].1;
        seq![
            tv(TokenType::Identifier, line, col, key),
            tv(TokenType::Equals, line, col + key.len(), seq!['=']),
            tv(TokenType::Literal, line, col + key.len() + 1, value),
        ] + attr_toks(attrs.drop_first(), line, col + key.len() + 3 + value.len())
    }
}

/// The tokens that lexing a rendered subtree produces, starting at the
/// given position.  A rendering contains no newline, so the line never
/// changes and the column advances one step per character.
pub open spec fn toks_of(t: NodeV, line: int, col: int) -> Seq<TokenV>
    decreases t, 0int,
{
    match t.body {
        BodyV::Text(_) => Seq::empty(),
        BodyV::Element(kids) => {
            let n = t.tag.len() as int;
            if kids.len() == 0 {
                let arl = attrs_render(t.attrs).len() as int;
                seq![
                    tv(TokenType::LeftAngle, line, col, seq!['<']),
                    tv(TokenType::Identifier, line, col + 1, t.tag),
                ] + attr_toks(t.attrs, line, col + 2 + n) + seq![
                    tv(TokenType::Stroke, line, col + 2 + n + arl, seq!['/']),
                    tv(TokenType::RightAngle, line, col + 3 + n + arl, seq!['>']),
                ]
            } else {
                let cx = col + 2 + n + spec_render_seq(kids).len();
                seq![
                    tv(TokenType::LeftAngle, line, col, seq!['<']),
                    tv(TokenType::Identifier, line, col + 1, t.tag),
                    tv(TokenType::RightAngle, line, col + 1 + n, seq!['>']),
                ] + toks_of_list(kids, line, col + 2 + n) + seq![
                    tv(TokenType::LeftAngle, line, cx, seq!['<']),
                    tv(TokenType::Stroke, line, cx + 1, seq!['/']),
                    tv(TokenType::Identifier, line, cx + 2, t.tag),
                    tv(TokenType::RightAngle, line, cx + 2 + n, seq!['>']),
                ]
            }
        },
    }
}

/// `toks_of`, over a child list rendered back to back.
pub open spec fn toks_of_list(kids: Seq<NodeV>, line: int, col: int) -> Seq<TokenV>
    decreases kids, 1int,
{
    if kids.len() == 0 {
        Seq::empty()
    } else {
        toks_of(kids[0], line, col) + toks_of_list(
            kids.drop_first(),
            line,
            col + spec_render(kids[0]).len(),
        )
    }
}

/// The characters of `s` stand in `text` starting at `i`.
pub open spec fn covers(text: Seq<char>, i: int, s: Seq<char>) -> bool {
    &&& 0 <= i
    &&& i + s.len() <= text.len()
    &&& forall|k: int| 0 <= k < s.len() ==> text[i + k] == #[trigger] s[k]
}

/// The tokens of `s` stand in `toks` starting at `cur`.
pub open spec fn tok_covers(toks: Seq<TokenV>, cur: int, s: Seq<TokenV>) -> bool {
    &&& 0 <= cur
    &&& cur + s.len() <= toks.len()
    &&& forall|k: int| 0 <= k < s.len() ==> toks[cur + k] == #[trigger] s[k]
}

/// Prepend a token list to a lexing outcome.
pub open spec fn cons_list(ts: Seq<TokenV>, rest: Result<Seq<TokenV>, TokenizeError>) -> Result<
    Seq<TokenV>,
    TokenizeError,
> {
    match rest {
        Ok(r) => Ok(ts + r),
        Err(e) => Err(e),
    }
}

/// Covering a concatenation is covering both halves.
proof fn lemma_covers_split(text: Seq<char>, i: int, a: Seq<char>, b: Seq<char>)
    requires
        covers(text, i, a + b),
    ensures
        covers(text, i, a),
        covers(text, i + a.len(), b),
{
    assert forall|k: int| 0 <= k < a.len() implies text[i + k] == #[trigger] a[k] by {
        assert((a + b)[k] == a[k]);
    }
    assert forall|k: int| 0 <= k < b.len() implies text[i + a.len() + k] == #[trigger] b[k] by {
        assert((a + b)[a.len() + k] == b[k]);
    }
}

/// Covering a token concatenation is covering both halves.
proof fn lemma_tok_covers_split(toks: Seq<TokenV>, cur: int, a: Seq<TokenV>, b: Seq<TokenV>)
    requires
        tok_covers(toks, cur, a + b),
    ensures
        tok_covers(toks, cur, a),
        tok_covers(toks, cur + a.len(), b),
{
    assert forall|k: int| 0 <= k < a.len() implies toks[cur + k] == #[trigger] a[k] by {
        assert((a + b)[k] == a[k]);
    }
    assert forall|k: int| 0 <= k < b.len() implies toks[cur + a.len() + k] == #[trigger] b[k] by {
        assert((a + b)[a.len() + k] == b[k]);
    }
}

/// One covered character, read back.
proof fn lemma_covers_index(text: Seq<char>, i: int, s: Seq<char>, k: int)
    requires
        covers(text, i, s),
        0 <= k < s.len(),
    ensures
        text[i + k] == s[k],
{
}

/// One covered token, read back.
proof fn lemma_tok_index(toks: Seq<TokenV>, cur: int, s: Seq<TokenV>, k: int)
    requires
        tok_covers(toks, cur, s),
        0 <= k < s.len(),
    ensures
        toks[cur + k] == s[k],
{
}

/// An identifier run over known characters ends exactly where they stop.
proof fn lemma_ident_end_exact(text: Seq<char>, i: int, e: int)
    requires
        0 <= i <= e <= text.len(),
        forall|k: int| i <= k < e ==> is_ident_char(#[trigger] text[k], true),
        e < text.len(),
        !is_ident_char(text[e], true),
    ensures
        ident_end(text, i, true) == e,
    decreases e - i,
{
    if i < e {
        lemma_ident_end_exact(text, i + 1, e);
    }
}

/// A scan over known literal-safe characters closes exactly at the quote
/// that follows them.
proof fn lemma_literal_scan_exact(text: Seq<char>, j: int, e: int, esc: bool)
    requires
        0 <= j <= e < text.len(),
        text[e] == '\'',
        forall|k: int| j <= k < e ==> (#[trigger] text[k]) != '\'' && text[k] != '\n',
        forall|k: int| j <= k < e - 1 ==> !((#[trigger] text[k]) == '\\' && text[k + 1] == 'n'),
        esc ==> text[j] != 'n',
    ensures
        literal_scan(text, '\'', j, esc) == LiteralScan::Closed(e),
    decreases e - j,
{
    if j < e {
        lemma_literal_scan_exact(text, j + 1, e, text[j] == '\\');
    }
}

/// A nonempty child list renders as its first child's rendering followed by
/// the rest's.
proof fn lemma_render_seq_first(kids: Seq<NodeV>)
    requires
        kids.len() > 0,
    ensures
        spec_render_seq(kids) == spec_render(kids[0]) + spec_render_seq(kids.drop_first()),
    decreases kids.len(),
{
    if kids.len() == 1 {
        assert(kids.drop_last() =~= Seq::<NodeV>::empty());
        assert(kids.drop_first() =~= Seq::<NodeV>::empty());
        assert(kids.last() == kids[0]);
        assert(spec_render_seq(kids) =~= spec_render(kids[0]) + spec_render_seq(
            kids.drop_first(),
        ));
    } else {
        let dl = kids.drop_last();
        lemma_render_seq_first(dl);
        assert(dl[0] == kids[0]);
        assert(dl.drop_first() =~= kids.drop_first().drop_last());
        assert(kids.drop_first().last() == kids.last());
        assert(kids.drop_first().len() > 0);
        calc! {
            (==)
            spec_render_seq(kids); {}
            spec_render_seq(dl) + spec_render(kids.last()); {}
            (spec_render(kids[0]) + spec_render_seq(dl.drop_first())) + spec_render(
                kids.last(),
            ); {
                assert((spec_render(kids[0]) + spec_render_seq(dl.drop_first()))
                    + spec_render(kids.last()) =~= spec_render(kids[0]) + (spec_render_seq(
                    kids.drop_first().drop_last(),
                ) + spec_render(kids.drop_first().last())));
            }
            spec_render(kids[0]) + (spec_render_seq(kids.drop_first().drop_last())
                + spec_render(kids.drop_first().last())); {}
            spec_render(kids[0]) + spec_render_seq(kids.drop_first());
        }
    }
}

/// A nonempty attribute mapping renders as its first pair followed by the
/// rest.
proof fn lemma_attrs_render_first(attrs: Seq<(Seq<char>, Seq<char>)>)
    requires
        attrs.len() > 0,
    ensures
        attrs_render(attrs) == (attrs[0].0 + seq!['=', '\''] + attrs[0].1 + seq!['\''])
            + attrs_render(attrs.drop_first()),
    decreases attrs.len(),
{
    let p0 = attrs[0].0 + seq!['=', '\''] + attrs[0].1 + seq!['\''];
    if attrs.len() == 1 {
        assert(attrs.drop_last() =~= Seq::<(Seq<char>, Seq<char>)>::empty());
        assert(attrs.drop_first() =~= Seq::<(Seq<char>, Seq<char>)>::empty());
        assert(attrs.last() == attrs[0]);
        assert(attrs_render(attrs) =~= p0 + attrs_render(attrs.drop_first()));
    } else {
        let dl = attrs.drop_last();
        lemma_attrs_render_first(dl);
        assert(dl[0] == attrs[0]);
        assert(dl.drop_first() =~= attrs.drop_first().drop_last());
        assert(attrs.drop_first().last() == attrs.last());
        assert(attrs.drop_first().len() > 0);
        let lastp = attrs.last().0 + seq!['=', '\''] + attrs.last().1 + seq!['\''];
        calc! {
            (==)
            attrs_render(attrs); {
                assert(attrs_render(attrs) =~= attrs_render(dl) + lastp);
            }
            attrs_render(dl) + lastp; {}
            (p0 + attrs_render(dl.drop_first())) + lastp; {
                assert((p0 + attrs_render(dl.drop_first())) + lastp =~= p0 + (attrs_render(
                    attrs.drop_first().drop_last(),
                ) + lastp));
            }
            p0 + (attrs_render(attrs.drop_first().drop_last()) + lastp); {
                assert(attrs_render(attrs.drop_first()) =~= attrs_render(
                    attrs.drop_first().drop_last(),
                ) + lastp);
            }
            p0 + attrs_render(attrs.drop_first());
        }
    }
}

/// Lexing a rendered attribute mapping, inside a tag, produces exactly its
/// tokens and continues after them, still inside the tag.
#[verifier::rlimit(100)]
#[verifier::spinoff_prover]
proof fn lemma_lex_attrs(
    attrs: Seq<(Seq<char>, Seq<char>)>,
    text: Seq<char>,
    i: int,
    l: int,
    c: int,
)
    requires
        lexer_char_facts(),
        attrs_safe(attrs),
        covers(text, i, attrs_render(attrs)),
    ensures
        spec_tokenize(text, i, l, c, true) == cons_list(
            attr_toks(attrs, l, c),
            spec_tokenize(
                text,
                i + attrs_render(attrs).len(),
                l,
                c + attrs_render(attrs).len(),
                true,
            ),
        ),
    decreases attrs.len(),
{
    if attrs.len() == 0 {
        assert(attrs_render(attrs) =~= Seq::<char>::empty());
        let k = spec_tokenize(text, i, l, c, true);
        if k is Ok {
            let rest = k->Ok_0;
            assert(Seq::<TokenV>::empty() + rest =~= rest);
        }
    } else {
        let key = attrs[0].0;
        let value = attrs[0].1;
        let nk = key.len() as int;
        let nv = value.len() as int;
        lemma_attrs_render_first(attrs);
        let b2 = key + seq!['=', '\''];
        let b3 = b2 + value;
        let p0 = b3 + seq!['\''];
        assert((key + seq!['=', '\''] + value + seq!['\'']) == p0);
        lemma_covers_split(text, i, p0, attrs_render(attrs.drop_first()));
        lemma_covers_split(text, i, b3, seq!['\'']);
        lemma_covers_split(text, i, b2, value);
        lemma_covers_split(text, i, key, seq!['=', '\'']);
        lemma_covers_index(text, i + nk, seq!['=', '\''], 0);
        lemma_covers_index(text, i + nk, seq!['=', '\''], 1);
        lemma_covers_index(text, i, key, 0);
        assert(plain_name(key) && lit_safe(value));
        assert(alphanumeric(key[0]));
        assert(text[i] == key[0]);
        assert(text[i + nk] == '=');
        assert(text[i + nk + 1] == '\'');
        lemma_covers_index(text, i + nk + 2 + nv, seq!['\''], 0);
        assert(text[i + nk + 2 + nv] == '\'');
        let t1 = tv(TokenType::Identifier, l, c, key);
        let t2 = tv(TokenType::Equals, l, c + nk, seq!['=']);
        let t3 = tv(TokenType::Literal, l, c + nk + 1, value);
        assert forall|k: int| i <= k < i + nk implies is_ident_char(#[trigger] text[k], true) by {
            assert(text[k] == key[k - i]);
        }
        lemma_ident_end_exact(text, i, i + nk);
        assert(text.subrange(i, i + nk) =~= key);
        assert(spec_tokenize(text, i, l, c, true) == cons_tok(
            t1,
            spec_tokenize(text, i + nk, l, c + nk, true),
        ));
        assert(spec_tokenize(text, i + nk, l, c + nk, true) == cons_tok(
            t2,
            spec_tokenize(text, i + nk + 1, l, c + nk + 1, true),
        ));
        assert forall|k: int| i + nk + 2 <= k < i + nk + 2 + nv implies (#[trigger] text[k])
            != '\'' && text[k] != '\n' by {
            assert(text[k] == value[k - (i + nk + 2)]);
        }
        assert forall|k: int|
            i + nk + 2 <= k < i + nk + 2 + nv - 1 implies !((#[trigger] text[k]) == '\\'
            && text[k + 1] == 'n') by {
            assert(text[k] == value[k - (i + nk + 2)]);
            assert(text[k + 1] == value[k + 1 - (i + nk + 2)]);
        }
        lemma_literal_scan_exact(text, i + nk + 2, i + nk + 2 + nv, false);
        assert(text.subrange(i + nk + 2, i + nk + 2 + nv) =~= value);
        assert(spec_tokenize(text, i + nk + 1, l, c + nk + 1, true) == cons_tok(
            t3,
            spec_tokenize(text, i + nk + 3 + nv, l, c + nk + 3 + nv, true),
        ));
        let rest_attrs = attrs.drop_first();
        assert(attrs_safe(rest_attrs)) by {
            assert(forall|k: int|
                0 <= k < rest_attrs.len() ==> #[trigger] rest_attrs[k] == attrs[k + 1]);
        }
        lemma_lex_attrs(rest_attrs, text, i + nk + 3 + nv, l, c + nk + 3 + nv);
        let arl = attrs_render(attrs).len() as int;
        assert(arl == nk + 3 + nv + attrs_render(rest_attrs).len());
        let k = spec_tokenize(text, i + arl, l, c + arl, true);
        if k is Ok {
            let rest = k->Ok_0;
            assert(seq![t1] + (seq![t2] + (seq![t3] + (attr_toks(
                rest_attrs,
                l,
                c + nk + 3 + nv,
            ) + rest))) =~= attr_toks(attrs, l, c) + rest);
        }
    }
}

/// Lexing a rendered subtree from any position produces exactly its tokens,
/// then continues after them, out of tag mode, with the column advanced one
/// step per rendered character.
#[verifier::rlimit(100)]
#[verifier::spinoff_prover]
proof fn lemma_lex_render(t: NodeV, text: Seq<char>, i: int, l: int, c: int)
    requires
        lexer_char_facts(),
        render_safe(t),
        covers(text, i, spec_render(t)),
    ensures
        spec_tokenize(text, i, l, c, false) == cons_list(
            toks_of(t, l, c),
            spec_tokenize(
                text,
                i + spec_render(t).len(),
                l,
                c + spec_render(t).len(),
                false,
            ),
        ),
    decreases t, 0int,
{
    let kids = t.body->Element_0;
    let tag = t.tag;
    let n = tag.len() as int;
    let rl = spec_render(t).len() as int;
    if kids.len() == 0 {
        let arl = attrs_render(t.attrs).len() as int;
        let a2 = seq!['<'] + tag;
        let a3 = a2 + seq![' '];
        let a4 = a3 + attrs_render(t.attrs);
        assert(spec_render(t) == a4 + seq!['/', '>']);
        lemma_covers_split(text, i, a4, seq!['/', '>']);
        lemma_covers_split(text, i, a3, attrs_render(t.attrs));
        lemma_covers_split(text, i, a2, seq![' ']);
        lemma_covers_split(text, i, seq!['<'], tag);
        assert(rl == 4 + n + arl);
        lemma_covers_index(text, i, seq!['<'], 0);
        lemma_covers_index(text, i + 1 + n, seq![' '], 0);
        lemma_covers_index(text, i + 2 + n + arl, seq!['/', '>'], 0);
        lemma_covers_index(text, i + 2 + n + arl, seq!['/', '>'], 1);
        assert(text[i] == '<');
        assert(text[i + 1 + n] == ' ');
        assert(text[i + 2 + n + arl] == '/');
        assert(text[i + 3 + n + arl] == '>');
        lemma_covers_index(text, i + 1, tag, 0);
        assert(alphanumeric(tag[0]));
        assert(forall|k: int| 0 <= k < n ==> text[i + 1 + k] == #[trigger] tag[k]);
        assert(alphanumeric(text[i + 1]));
        assert(!comment_opens(text, i));
        let t1 = tv(TokenType::LeftAngle, l, c, seq!['<']);
        let t2 = tv(TokenType::Identifier, l, c + 1, tag);
        let t3 = tv(TokenType::Stroke, l, c + 2 + n + arl, seq!['/']);
        let t4 = tv(TokenType::RightAngle, l, c + 3 + n + arl, seq!['>']);
        assert(spec_tokenize(text, i, l, c, false) == cons_tok(
            t1,
            spec_tokenize(text, i + 1, l, c + 1, true),
        ));
        assert forall|k: int| i + 1 <= k < i + 1 + n implies is_ident_char(
            #[trigger] text[k],
            true,
        ) by {
            assert(text[k] == tag[k - (i + 1)]);
        }
        lemma_ident_end_exact(text, i + 1, i + 1 + n);
        assert(text.subrange(i + 1, i + 1 + n) =~= tag);
        assert(spec_tokenize(text, i + 1, l, c + 1, true) == cons_tok(
            t2,
            spec_tokenize(text, i + 1 + n, l, c + 1 + n, true),
        ));
        assert(spec_tokenize(text, i + 1 + n, l, c + 1 + n, true) == spec_tokenize(
            text,
            i + 2 + n,
            l,
            c + 2 + n,
            true,
        ));
        lemma_lex_attrs(t.attrs, text, i + 2 + n, l, c + 2 + n);
        assert(spec_tokenize(text, i + 2 + n + arl, l, c + 2 + n + arl, true) == cons_tok(
            t3,
            spec_tokenize(text, i + 3 + n + arl, l, c + 3 + n + arl, true),
        ));
        assert(spec_tokenize(text, i + 3 + n + arl, l, c + 3 + n + arl, true) == cons_tok(
            t4,
            spec_tokenize(text, i + 4 + n + arl, l, c + 4 + n + arl, false),
        ));
        let at = attr_toks(t.attrs, l, c + 2 + n);
        let k = spec_tokenize(text, i + rl, l, c + rl, false);
        if k is Ok {
            let rest = k->Ok_0;
            assert(seq![t1] + (seq![t2] + (at + (seq![t3] + (seq![t4] + rest)))) =~= toks_of(
                t,
                l,
                c,
            ) + rest);
        }
    } else {
        let a2 = seq!['<'] + tag;
        let a3 = a2 + seq!['>'];
        let a4 = a3 + spec_render_seq(kids);
        let a5 = a4 + seq!['<', '/'];
        let a6 = a5 + tag;
        assert(spec_render(t) == a6 + seq!['>']);
        lemma_covers_split(text, i, a6, seq!['>']);
        lemma_covers_split(text, i, a5, tag);
        lemma_covers_split(text, i, a4, seq!['<', '/']);
        lemma_covers_split(text, i, a3, spec_render_seq(kids));
        lemma_covers_split(text, i, a2, seq!['>']);
        lemma_covers_split(text, i, seq!['<'], tag);
        let rs = spec_render_seq(kids).len() as int;
        let cx = i + 2 + n + rs;
        assert(rl == 5 + 2 * n + rs);
        lemma_covers_index(text, i, seq!['<'], 0);
        lemma_covers_index(text, i + 1 + n, seq!['>'], 0);
        lemma_covers_index(text, cx, seq!['<', '/'], 0);
        lemma_covers_index(text, cx, seq!['<', '/'], 1);
        lemma_covers_index(text, cx + 2 + n, seq!['>'], 0);
        lemma_covers_index(text, i + 1, tag, 0);
        lemma_covers_index(text, cx + 2, tag, 0);
        assert(alphanumeric(tag[0]));
        assert(text[i] == '<');
        assert(text[i + 1 + n] == '>');
        assert(text[cx] == '<');
        assert(text[cx + 1] == '/');
        assert(forall|k: int| 0 <= k < n ==> text[i + 1 + k] == #[trigger] tag[k]);
        assert(forall|k: int| 0 <= k < n ==> text[cx + 2 + k] == #[trigger] tag[k]);
        assert(text[cx + 2 + n] == '>');
        assert(alphanumeric(text[i + 1]));
        assert(alphanumeric(text[cx + 2]));
        assert(!comment_opens(text, i));
        assert(!comment_opens(text, cx));
        let t1 = tv(TokenType::LeftAngle, l, c, seq!['<']);
        let t2 = tv(TokenType::Identifier, l, c + 1, tag);
        let t3 = tv(TokenType::RightAngle, l, c + 1 + n, seq!['>']);
        let dx = c + 2 + n + rs;
        let u1 = tv(TokenType::LeftAngle, l, dx, seq!['<']);
        let u2 = tv(TokenType::Stroke, l, dx + 1, seq!['/']);
        let u3 = tv(TokenType::Identifier, l, dx + 2, tag);
        let u4 = tv(TokenType::RightAngle, l, dx + 2 + n, seq!['>']);
        assert(spec_tokenize(text, i, l, c, false) == cons_tok(
            t1,
            spec_tokenize(text, i + 1, l, c + 1, true),
        ));
        assert forall|k: int| i + 1 <= k < i + 1 + n implies is_ident_char(
            #[trigger] text[k],
            true,
        ) by {
            assert(text[k] == tag[k - (i + 1)]);
        }
        lemma_ident_end_exact(text, i + 1, i + 1 + n);
        assert(text.subrange(i + 1, i + 1 + n) =~= tag);
        assert(spec_tokenize(text, i + 1, l, c + 1, true) == cons_tok(
            t2,
            spec_tokenize(text, i + 1 + n, l, c + 1 + n, true),
        ));
        assert(spec_tokenize(text, i + 1 + n, l, c + 1 + n, true) == cons_tok(
            t3,
            spec_tokenize(text, i + 2 + n, l, c + 2 + n, false),
        ));
        lemma_lex_render_list(kids, text, i + 2 + n, l, c + 2 + n);
        assert(spec_tokenize(text, cx, l, dx, false) == cons_tok(
            u1,
            spec_tokenize(text, cx + 1, l, dx + 1, true),
        ));
        assert(spec_tokenize(text, cx + 1, l, dx + 1, true) == cons_tok(
            u2,
            spec_tokenize(text, cx + 2, l, dx + 2, true),
        ));
        assert forall|k: int| cx + 2 <= k < cx + 2 + n implies is_ident_char(
            #[trigger] text[k],
            true,
        ) by {
            assert(text[k] == tag[k - (cx + 2)]);
        }
        lemma_ident_end_exact(text, cx + 2, cx + 2 + n);
        assert(text.subrange(cx + 2, cx + 2 + n) =~= tag);
        assert(spec_tokenize(text, cx + 2, l, dx + 2, true) == cons_tok(
            u3,
            spec_tokenize(text, cx + 2 + n, l, dx + 2 + n, true),
        ));
        assert(spec_tokenize(text, cx + 2 + n, l, dx + 2 + n, true) == cons_tok(
            u4,
            spec_tokenize(text, cx + 3 + n, l, dx + 3 + n, false),
        ));
        assert(cx + 3 + n == i + rl);
        let k = spec_tokenize(text, i + rl, l, c + rl, false);
        if k is Ok {
            let rest = k->Ok_0;
            assert(seq![u1] + (seq![u2] + (seq![u3] + (seq![u4] + rest))) =~= (seq![u1, u2, u3,
                u4] + rest));
            let kl = toks_of_list(kids, l, c + 2 + n);
            assert(seq![t1] + (seq![t2] + (seq![t3] + (kl + (seq![u1, u2, u3, u4] + rest))))
                =~= toks_of(t, l, c) + rest);
        }
    }
}

/// Lexing a rendered child list produces the children's tokens back to
/// back, then continues after them.
proof fn lemma_lex_render_list(kids: Seq<NodeV>, text: Seq<char>, i: int, l: int, c: int)
    requires
        lexer_char_facts(),
        render_safe_list(kids),
        covers(text, i, spec_render_seq(kids)),
    ensures
        spec_tokenize(text, i, l, c, false) == cons_list(
            toks_of_list(kids, l, c),
            spec_tokenize(
                text,
                i + spec_render_seq(kids).len(),
                l,
                c + spec_render_seq(kids).len(),
                false,
            ),
        ),
    decreases kids, 1int,
{
    if kids.len() == 0 {
        assert(spec_render_seq(kids) =~= Seq::<char>::empty());
        let k = spec_tokenize(text, i, l, c, false);
        if k is Ok {
            let rest = k->Ok_0;
            assert(Seq::<TokenV>::empty() + rest =~= rest);
        }
    } else {
        lemma_render_seq_first(kids);
        let r0 = spec_render(kids[0]);
        lemma_covers_split(text, i, r0, spec_render_seq(kids.drop_first()));
        lemma_lex_render(kids[0], text, i, l, c);
        lemma_lex_render_list(kids.drop_first(), text, i + r0.len(), l, c + r0.len());
        let rs = spec_render_seq(kids).len() as int;
        assert(i + rs == i + r0.len() + spec_render_seq(kids.drop_first()).len());
        let k = spec_tokenize(text, i + rs, l, c + rs, false);
        if k is Ok {
            let rest = k->Ok_0;
            assert(toks_of(kids[0], l, c) + (toks_of_list(
                kids.drop_first(),
                l,
                c + r0.len(),
            ) + rest) =~= toks_of_list(kids, l, c) + rest);
        }
    }
}

/// A rendered subtree's tokens: at least four of them, opening with an
/// angle bracket and the tag's identifier.
proof fn lemma_toks_of_head(t: NodeV, l: int, c: int)
    requires
        render_safe(t),
    ensures
        toks_of(t, l, c).len() >= 4,
        toks_of(t, l, c)[0] == tv(TokenType::LeftAngle, l, c, seq!['<']),
        toks_of(t, l, c)[1] == tv(TokenType::Identifier, l, c + 1, t.tag),
{
    let kids = t.body->Element_0;
    let n = t.tag.len() as int;
    if kids.len() == 0 {
        let arl = attrs_render(t.attrs).len() as int;
        let a = seq![
            tv(TokenType::LeftAngle, l, c, seq!['<']),
            tv(TokenType::Identifier, l, c + 1, t.tag),
        ];
        let m = attr_toks(t.attrs, l, c + 2 + n);
        let b = seq![
            tv(TokenType::Stroke, l, c + 2 + n + arl, seq!['/']),
            tv(TokenType::RightAngle, l, c + 3 + n + arl, seq!['>']),
        ];
        assert(toks_of(t, l, c) == (a + m) + b);
        assert(((a + m) + b)[0] == a[0]);
        assert(((a + m) + b)[1] == a[1]);
    } else {
        let cx = c + 2 + n + spec_render_seq(kids).len();
        let a = seq![
            tv(TokenType::LeftAngle, l, c, seq!['<']),
            tv(TokenType::Identifier, l, c + 1, t.tag),
            tv(TokenType::RightAngle, l, c + 1 + n, seq!['>']),
        ];
        let b = toks_of_list(kids, l, c + 2 + n);
        assert(toks_of(t, l, c)[0] == (a + b)[0]);
        assert(toks_of(t, l, c)[1] == (a + b)[1]);
    }
}

/// Parsing the tokens of a rendered attribute mapping folds it back
/// unchanged onto the accumulator, consuming the stroke that follows.
#[verifier::rlimit(100)]
#[verifier::spinoff_prover]
proof fn lemma_parse_attrs(
    attrs: Seq<(Seq<char>, Seq<char>)>,
    toks: Seq<TokenV>,
    cur: int,
    l: int,
    c: int,
    acc: Seq<(Seq<char>, Seq<char>)>,
)
    requires
        attrs_unique(acc + attrs),
        tok_covers(toks, cur, attr_toks(attrs, l, c)),
        cur + attr_toks(attrs, l, c).len() < toks.len(),
        toks[cur + attr_toks(attrs, l, c).len()].kind == TokenType::Stroke,
    ensures
        spec_attributes(toks, cur, acc) == Ok::<(bool, Seq<(Seq<char>, Seq<char>)>, int),
            ParseErrV,
        >((true, acc + attrs, cur + attr_toks(attrs, l, c).len() + 1)),
    decreases attrs.len(),
{
    let m = attr_toks(attrs, l, c);
    if attrs.len() == 0 {
        assert(acc + attrs =~= acc);
        assert(m.len() == 0);
        assert(spec_attributes(toks, cur, acc) == Ok::<
            (bool, Seq<(Seq<char>, Seq<char>)>, int),
            ParseErrV,
        >((true, acc, cur + 1)));
    } else {
        let key = attrs[0].0;
        let value = attrs[0].1;
        let a = seq![
            tv(TokenType::Identifier, l, c, key),
            tv(TokenType::Equals, l, c + key.len(), seq!['=']),
            tv(TokenType::Literal, l, c + key.len() + 1, value),
        ];
        let c1 = c + key.len() + 3 + value.len();
        let rest_m = attr_toks(attrs.drop_first(), l, c1);
        assert(m == a + rest_m);
        lemma_tok_covers_split(toks, cur, a, rest_m);
        lemma_tok_index(toks, cur, a, 0);
        lemma_tok_index(toks, cur, a, 1);
        lemma_tok_index(toks, cur, a, 2);
        assert forall|j: int| 0 <= j < acc.len() implies (#[trigger] acc[j]).0 != key by {
            assert((acc + attrs)[j] == acc[j]);
            assert((acc + attrs)[acc.len() as int] == attrs[0]);
        }
        lemma_attrs_insert_at(acc, key, value, acc.len() as int);
        assert(crate::node::attrs_insert(acc, key, value) == acc.push((key, value)));
        let acc2 = acc.push((key, value));
        assert(acc2 + attrs.drop_first() =~= acc + attrs);
        lemma_parse_attrs(attrs.drop_first(), toks, cur + 3, l, c1, acc2);
        assert(spec_attributes(toks, cur, acc) == Ok::<
            (bool, Seq<(Seq<char>, Seq<char>)>, int),
            ParseErrV,
        >((true, acc + attrs, cur + m.len() + 1)));
    }
}

/// Parsing a rendered subtree's tokens from any cursor yields exactly the
/// stripped subtree and stops right after its tokens.
#[verifier::rlimit(100)]
#[verifier::spinoff_prover]
proof fn lemma_parse_render(t: NodeV, toks: Seq<TokenV>, cur: int, l: int, c: int)
    requires
        render_safe(t),
        tok_covers(toks, cur, toks_of(t, l, c)),
    ensures
        spec_tag(toks, cur) == Ok::<(NodeV, int), ParseErrV>(
            (strip(t), cur + toks_of(t, l, c).len()),
        ),
    decreases t, 0int,
{
    let kids = t.body->Element_0;
    let tag = t.tag;
    let n = tag.len() as int;
    let ts = toks_of(t, l, c);
    if kids.len() == 0 {
        let arl = attrs_render(t.attrs).len() as int;
        let a = seq![
            tv(TokenType::LeftAngle, l, c, seq!['<']),
            tv(TokenType::Identifier, l, c + 1, tag),
        ];
        let m = attr_toks(t.attrs, l, c + 2 + n);
        let b = seq![
            tv(TokenType::Stroke, l, c + 2 + n + arl, seq!['/']),
            tv(TokenType::RightAngle, l, c + 3 + n + arl, seq!['>']),
        ];
        assert(ts == (a + m) + b);
        lemma_tok_covers_split(toks, cur, a + m, b);
        lemma_tok_covers_split(toks, cur, a, m);
        lemma_tok_index(toks, cur, a, 0);
        lemma_tok_index(toks, cur, a, 1);
        let endm = cur + 2 + m.len();
        lemma_tok_index(toks, endm, b, 0);
        lemma_tok_index(toks, endm, b, 1);
        assert(Seq::<(Seq<char>, Seq<char>)>::empty() + t.attrs =~= t.attrs);
        lemma_parse_attrs(t.attrs, toks, cur + 2, l, c + 2 + n, Seq::empty());
        assert(spec_attributes(toks, cur + 2, Seq::empty()) == Ok::<
            (bool, Seq<(Seq<char>, Seq<char>)>, int),
            ParseErrV,
        >((true, t.attrs, endm + 1)));
        assert(toks[endm + 1].kind == TokenType::RightAngle);
        assert(strip(t) == t);
        assert(NodeV { tag, attrs: t.attrs, body: BodyV::Element(Seq::empty()) } == t) by {
            assert(kids =~= Seq::<NodeV>::empty());
        }
        assert(spec_tag(toks, cur) == Ok::<(NodeV, int), ParseErrV>((t, cur + ts.len())));
    } else {
        let cx = c + 2 + n + spec_render_seq(kids).len();
        let a = seq![
            tv(TokenType::LeftAngle, l, c, seq!['<']),
            tv(TokenType::Identifier, l, c + 1, tag),
            tv(TokenType::RightAngle, l, c + 1 + n, seq!['>']),
        ];
        let m = toks_of_list(kids, l, c + 2 + n);
        let b = seq![
            tv(TokenType::LeftAngle, l, cx, seq!['<']),
            tv(TokenType::Stroke, l, cx + 1, seq!['/']),
            tv(TokenType::Identifier, l, cx + 2, tag),
            tv(TokenType::RightAngle, l, cx + 2 + n, seq!['>']),
        ];
        assert(ts == (a + m) + b);
        lemma_tok_covers_split(toks, cur, a + m, b);
        lemma_tok_covers_split(toks, cur, a, m);
        lemma_tok_index(toks, cur, a, 0);
        lemma_tok_index(toks, cur, a, 1);
        lemma_tok_index(toks, cur, a, 2);
        let end = cur + 3 + m.len();
        lemma_tok_index(toks, end, b, 0);
        lemma_tok_index(toks, end, b, 1);
        lemma_tok_index(toks, end, b, 2);
        lemma_tok_index(toks, end, b, 3);
        assert(spec_attributes(toks, cur + 2, Seq::empty()) == Ok::<
            (bool, Seq<(Seq<char>, Seq<char>)>, int),
            ParseErrV,
        >((false, Seq::empty(), cur + 2)));
        let c4 = cur + 3;
        assert(render_safe(kids[0]));
        lemma_toks_of_head(kids[0], l, c + 2 + n);
        let ts0 = toks_of(kids[0], l, c + 2 + n);
        let rest_l = toks_of_list(
            kids.drop_first(),
            l,
            c + 2 + n + spec_render(kids[0]).len(),
        );
        assert(m == ts0 + rest_l);
        lemma_tok_index(toks, c4, m, 0);
        lemma_tok_index(toks, c4, m, 1);
        assert(m[0] == ts0[0]);
        assert(m[1] == ts0[1]);
        assert(toks[c4].kind == TokenType::LeftAngle);
        assert(toks[c4 + 1].kind == TokenType::Identifier);
        lemma_parse_render_children(kids, toks, c4, l, c + 2 + n, tag, toks[cur + 1].pos);
        assert(spec_children(toks, c4, tag, toks[cur + 1].pos) == Ok::<
            (Seq<NodeV>, int),
            ParseErrV,
        >((strip_list(kids), end)));
        assert(spec_closing(
            toks,
            end,
            NodeV { tag, attrs: Seq::empty(), body: BodyV::Element(strip_list(kids)) },
            tag,
            toks[cur + 1].pos,
        ) == Ok::<(NodeV, int), ParseErrV>(
            (
                NodeV { tag, attrs: Seq::empty(), body: BodyV::Element(strip_list(kids)) },
                end + 4,
            ),
        ));
        assert(NodeV { tag, attrs: Seq::empty(), body: BodyV::Element(strip_list(kids)) }
            == strip(t));
        assert(end + 4 == cur + ts.len());
        assert(spec_tag(toks, cur) == Ok::<(NodeV, int), ParseErrV>(
            (strip(t), cur + ts.len()),
        ));
    }
}

/// Parsing the tokens of rendered children, followed by a closing tag's
/// open angle and stroke, yields exactly the stripped children and stops at
/// the closing tag.
#[verifier::rlimit(100)]
#[verifier::spinoff_prover]
proof fn lemma_parse_render_children(
    kids: Seq<NodeV>,
    toks: Seq<TokenV>,
    cur: int,
    l: int,
    c: int,
    ptag: Seq<char>,
    ppos: Position,
)
    requires
        render_safe_list(kids),
        kids.len() > 0,
        tok_covers(toks, cur, toks_of_list(kids, l, c)),
        cur + toks_of_list(kids, l, c).len() + 2 <= toks.len(),
        toks[cur + toks_of_list(kids, l, c).len()].kind == TokenType::LeftAngle,
        toks[cur + toks_of_list(kids, l, c).len() + 1].kind == TokenType::Stroke,
    ensures
        spec_children(toks, cur, ptag, ppos) == Ok::<(Seq<NodeV>, int), ParseErrV>(
            (strip_list(kids), cur + toks_of_list(kids, l, c).len()),
        ),
    decreases kids, 1int,
{
    let m = toks_of_list(kids, l, c);
    let ts0 = toks_of(kids[0], l, c);
    let c1 = c + spec_render(kids[0]).len();
    let rest_l = toks_of_list(kids.drop_first(), l, c1);
    assert(m == ts0 + rest_l);
    lemma_tok_covers_split(toks, cur, ts0, rest_l);
    lemma_toks_of_head(kids[0], l, c);
    lemma_parse_render(kids[0], toks, cur, l, c);
    let rc = cur + ts0.len();
    let end = cur + m.len();
    if kids.len() == 1 {
        assert(kids.drop_first() =~= Seq::<NodeV>::empty());
        assert(rest_l =~= Seq::<TokenV>::empty());
        assert(rc == end);
        assert(seq![strip(kids[0])] =~= strip_list(kids));
        assert(spec_children(toks, cur, ptag, ppos) == Ok::<(Seq<NodeV>, int), ParseErrV>(
            (strip_list(kids), end),
        ));
    } else {
        assert(kids.drop_first().len() > 0);
        assert(render_safe_list(kids.drop_first()));
        assert(render_safe(kids.drop_first()[0]));
        lemma_toks_of_head(kids.drop_first()[0], l, c1);
        lemma_tok_index(toks, rc, rest_l, 0);
        lemma_tok_index(toks, rc, rest_l, 1);
        let ts1 = toks_of(kids.drop_first()[0], l, c1);
        let rest_l2 = toks_of_list(
            kids.drop_first().drop_first(),
            l,
            c1 + spec_render(kids.drop_first()[0]).len(),
        );
        assert(rest_l == ts1 + rest_l2);
        assert(rest_l[0] == ts1[0]);
        assert(rest_l[1] == ts1[1]);
        assert(toks[rc].kind == TokenType::LeftAngle);
        assert(toks[rc + 1].kind == TokenType::Identifier);
        lemma_parse_render_children(kids.drop_first(), toks, rc, l, c1, ptag, ppos);
        assert(seq![strip(kids[0])] + strip_list(kids.drop_first()) =~= strip_list(kids));
        assert(spec_children(toks, cur, ptag, ppos) == Ok::<(Seq<NodeV>, int), ParseErrV>(
            (strip_list(kids), end),
        ));
    }
}

/// The round-trip law.  Serializing a tree of pure elements — no text
/// content, plain tag names, lexable leaf attributes — and feeding the text
/// back through the lexer and the parser reproduces the tree, except that
/// elements with children lose their attributes, exactly as the serializer
/// drops them.
pub proof fn lemma_render_parse_round_trip(t: NodeV)
    requires
        lexer_char_facts(),
        render_safe(t),
    ensures
        spec_document(spec_render(t)) == Ok::<NodeV, DomErrV>(strip(t)),
{
    let text = spec_render(t);
    assert(covers(text, 0, spec_render(t)));
    lemma_lex_render(t, text, 0, 0, 0);
    let rl = spec_render(t).len() as int;
    assert(spec_tokenize(text, rl, 0, rl, false) == Ok::<Seq<TokenV>, TokenizeError>(
        Seq::empty(),
    ));
    let ts = toks_of(t, 0, 0);
    assert(ts + Seq::<TokenV>::empty() =~= ts);
    assert(spec_tokenize(text, 0, 0, 0, false) == Ok::<Seq<TokenV>, TokenizeError>(ts));
    lemma_toks_of_head(t, 0, 0);
    assert(tok_covers(ts, 0, ts));
    lemma_parse_render(t, ts, 0, 0, 0);
    assert(ts[1].kind == TokenType::Identifier);
    assert(spec_parse(ts, 0) == spec_tag(ts, 0));
    assert(spec_document(text) == Ok::<NodeV, DomErrV>(strip(t)));
}

} // verus!
