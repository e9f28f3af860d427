use vstd::prelude::*;
use vstd::string::StringSliceAdditionalSpecFns;

verus! {

/// A name written in the source.
#[derive(Debug)]
pub struct Ident {
    pub name: Vec<u8>,
}

/// Relies on String::from_utf8: ASCII bytes decode to the characters of the same codes.
#[verifier::external_body]
fn ascii_to_string(bytes: &Vec<u8>) -> (r: String)
    ensures
        (forall|i: int| 0 <= i < bytes@.len() ==> #[trigger] bytes@[i] < 128)
            ==> r@ == Seq::new(bytes@.len(), |i: int| bytes@[i] as char),
{
    String::from_utf8(bytes.clone()).unwrap_or_default()
}

/// Whether a byte may stand in an identifier.
pub open spec fn is_word_byte(c: u8) -> bool {
    (97u8 <= c <= 122u8) || (65u8 <= c <= 90u8) || (48u8 <= c <= 57u8) || c == 95u8
}

impl Ident {
    pub open spec fn wf(&self) -> bool {
        self.name@.len() > 0 && forall|i: int| 0 <= i < self.name@.len() ==> is_word_byte(#[trigger] self.name@[i])
    }

    /// The identifier as text.
    pub fn to_string(&self) -> (r: String)
        ensures
            self.wf() ==> r@ == Seq::new(self.name@.len(), |i: int| self.name@[i] as char),
    {
        assert(self.wf() ==> forall|i: int| 0 <= i < self.name@.len() ==> #[trigger] self.name@[i] < 128);
        ascii_to_string(&self.name)
    }
}

/// Whether an item is visible outside its module.
#[derive(Clone, Copy, Debug, PartialEq, Eq, Structural)]
pub enum ItemVisibility {
    Private,
    Public,
}

/// `mod name;`: a module whose contents live in another file.
#[derive(Debug)]
pub struct ModuleDeclaration {
    pub visibility: ItemVisibility,
    pub ident: Ident,
    pub has_semicolon: bool,
}

/// `mod name { ... }` or `contract name { ... }`.
#[derive(Debug)]
pub struct ParsedSubModule {
    pub visibility: ItemVisibility,
    pub name: Ident,
    pub contents: ParsedModule,
    pub is_contract: bool,
}

#[derive(Debug)]
pub enum ItemKind {
    ModuleDecl(ModuleDeclaration),
    Submodules(ParsedSubModule),
}

#[derive(Debug)]
pub struct Item {
    pub kind: ItemKind,
}

/// The items of one module, in source order.
#[derive(Debug)]
pub struct ParsedModule {
    pub items: Vec<Item>,
}

/// What the parser expected and did not find.
#[derive(Clone, Copy, Debug, PartialEq, Eq, Structural)]
pub enum ParserError {
    ExpectedItem,
    ExpectedIdentifier,
    ExpectedSemicolon,
    ExpectedRightBrace,
}

/// A token of the module grammar.
#[derive(Debug)]
pub enum Token {
    Mod,
    Contract,
    Pub,
    Ident(Vec<u8>),
    LeftBrace,
    RightBrace,
    Semicolon,
    Other(u8),
}

/// A token as a mathematical value.
pub enum SpecToken {
    Mod,
    Contract,
    Pub,
    Ident(Seq<u8>),
    LeftBrace,
    RightBrace,
    Semicolon,
    Other(u8),
}

impl Token {
    pub open spec fn spec_token(&self) -> SpecToken {
        match self {
            Token::Mod => SpecToken::Mod,
            Token::Contract => SpecToken::Contract,
            Token::Pub => SpecToken::Pub,
            Token::Ident(w) => SpecToken::Ident(w@),
            Token::LeftBrace => SpecToken::LeftBrace,
            Token::RightBrace => SpecToken::RightBrace,
            Token::Semicolon => SpecToken::Semicolon,
            Token::Other(c) => SpecToken::Other(*c),
        }
    }
}

pub open spec fn token_views(toks: Seq<Token>) -> Seq<SpecToken> {
    toks.map_values(|t: Token| t.spec_token())
}

pub open spec fn is_space(c: u8) -> bool {
    c == 32 || c == 10 || c == 9 || c == 13
}

pub open spec fn is_word_start(c: u8) -> bool {
    (97 <= c <= 122) || (65 <= c <= 90) || c == 95
}

/// The end of the run of word bytes that starts at `i`.
pub open spec fn word_end(s: Seq<u8>, i: int) -> int
    decreases s.len() - i,
{
    if 0 <= i < s.len() && is_word_byte(s[i]) {
        word_end(s, i + 1)
    } else {
        i
    }
}

/// A keyword, or else an identifier.
pub open spec fn classify(w: Seq<u8>) -> SpecToken {
    if w == seq![109u8, 111, 100] {
        SpecToken::Mod
    } else if w == seq![99u8, 111, 110, 116, 114, 97, 99, 116] {
        SpecToken::Contract
    } else if w == seq![112u8, 117, 98] {
        SpecToken::Pub
    } else {
        SpecToken::Ident(w)
    }
}

pub open spec fn punct(c: u8) -> SpecToken {
    if c == 123 {
        SpecToken::LeftBrace
    } else if c == 125 {
        SpecToken::RightBrace
    } else if c == 59 {
        SpecToken::Semicolon
    } else {
        SpecToken::Other(c)
    }
}

/// The tokens of `s` from byte `i` on: spaces are dropped, a word starts with a letter or `_`
/// and runs over letters, digits and `_`, and every other byte is a token of its own.
pub open spec fn lex_from(s: Seq<u8>, i: int) -> Seq<SpecToken>
    decreases s.len() - i,
{
    if i < 0 || i >= s.len() {
        seq![]
    } else if is_space(s[i]) {
        lex_from(s, i + 1)
    } else if is_word_start(s[i]) {
        let e = word_end(s, i + 1);
        if i < e <= s.len() {
            seq![classify(s.subrange(i, e))] + lex_from(s, e)
        } else {
            seq![]
        }
    } else {
        seq![punct(s[i])] + lex_from(s, i + 1)
    }
}

proof fn lemma_word_end_bounds(s: Seq<u8>, i: int)
    requires
        0 <= i <= s.len(),
    ensures
        i <= word_end(s, i) <= s.len(),
    decreases s.len() - i,
{
    if i < s.len() && is_word_byte(s[i]) {
        lemma_word_end_bounds(s, i + 1);
    }
}

fn word_is(w: &Vec<u8>, k: &Vec<u8>) -> (r: bool)
    ensures
        r == (w@ == k@),
{
    if w.len() != k.len() {
        return false;
    }
    let mut i: usize = 0;
    while i < w.len()
        invariant
            w@.len() == k@.len(),
            i <= w@.len(),
            forall|j: int| 0 <= j < i ==> w@[j] == k@[j],
        decreases w@.len() - i,
    {
        if w[i] != k[i] {
            return false;
        }
        i = i + 1;
    }
    assert(w@ =~= k@);
    true
}

fn is_word(c: u8) -> (r: bool)
    ensures
        r == is_word_byte(c),
{
    (97 <= c && c <= 122) || (65 <= c && c <= 90) || (48 <= c && c <= 57) || c == 95
}

/// Splits source bytes into tokens.
pub fn tokenize(src: &[u8]) -> (r: Vec<Token>)
    ensures
        token_views(r@) == lex_from(src@, 0),
{
    let mut r: Vec<Token> = Vec::new();
    let mut i: usize = 0;
    while i < src.len()
        invariant
            i <= src@.len(),
            token_views(r@) + lex_from(src@, i as int) == lex_from(src@, 0),
        decreases src@.len() - i,
    {
        let c = src[i];
        let ghost r0 = r@;
        if c == 32 || c == 10 || c == 9 || c == 13 {
            i = i + 1;
        } else if (97 <= c && c <= 122) || (65 <= c && c <= 90) || c == 95 {
            let ghost i0 = i as int;
            let mut w: Vec<u8> = Vec::new();
            w.push(c);
            i = i + 1;
            assert(w@ =~= src@.subrange(i0, i as int));
            while i < src.len() && is_word(src[i])
                invariant
                    0 <= i0 < i <= src@.len(),
                    w@ == src@.subrange(i0, i as int),
                    word_end(src@, i as int) == word_end(src@, i0 + 1),
                decreases src@.len() - i,
            {
                w.push(src[i]);
                i = i + 1;
                assert(w@ =~= src@.subrange(i0, i as int));
            }
            assert(word_end(src@, i as int) == i);
            let t = if word_is(&w, &vec![109u8, 111, 100]) {
                Token::Mod
            } else if word_is(&w, &vec![99u8, 111, 110, 116, 114, 97, 99, 116]) {
                Token::Contract
            } else if word_is(&w, &vec![112u8, 117, 98]) {
                Token::Pub
            } else {
                Token::Ident(w)
            };
            proof {
                assert(t.spec_token() == classify(src@.subrange(i0, i as int)));
            }
            r.push(t);
            proof {
                assert(token_views(r@) =~= token_views(r0).push(t.spec_token()));
                assert(lex_from(src@, i0) == seq![classify(src@.subrange(i0, i as int))] + lex_from(src@, i as int));
                assert(token_views(r@) + lex_from(src@, i as int) =~= token_views(r0) + lex_from(src@, i0));
            }
        } else {
            let t = if c == 123 {
                Token::LeftBrace
            } else if c == 125 {
                Token::RightBrace
            } else if c == 59 {
                Token::Semicolon
            } else {
                Token::Other(c)
            };
            r.push(t);
            proof {
                assert(t.spec_token() == punct(c));
                assert(token_views(r@) =~= token_views(r0).push(t.spec_token()));
                assert(token_views(r@) + lex_from(src@, i + 1) =~= token_views(r0) + lex_from(src@, i as int));
            }
            i = i + 1;
        }
    }
    assert(token_views(r@) + lex_from(src@, i as int) =~= token_views(r@));
    r
}

/// An item as a mathematical value.
pub enum SpecItem {
    Decl { public: bool, name: Seq<u8>, has_semicolon: bool },
    Sub { public: bool, name: Seq<u8>, is_contract: bool, contents: Seq<SpecItem> },
}

pub open spec fn visibility_of(public: bool) -> ItemVisibility {
    if public { ItemVisibility::Public } else { ItemVisibility::Private }
}

/// The item `it` is the value `s`.
pub open spec fn item_is(it: Item, s: SpecItem) -> bool
    decreases s,
{
    match s {
        SpecItem::Decl { public, name, has_semicolon } => match it.kind {
            ItemKind::ModuleDecl(d) => d.visibility == visibility_of(public) && d.ident.name@ == name
                && d.has_semicolon == has_semicolon,
            _ => false,
        },
        SpecItem::Sub { public, name, is_contract, contents } => match it.kind {
            ItemKind::Submodules(m) => m.visibility == visibility_of(public) && m.name.name@ == name
                && m.is_contract == is_contract && m.contents.items@.len() == contents.len()
                && forall|k: int| 0 <= k < contents.len() ==> item_is(#[trigger] m.contents.items@[k], contents[k]),
            _ => false,
        },
    }
}

pub open spec fn items_are(its: Seq<Item>, s: Seq<SpecItem>) -> bool {
    its.len() == s.len() && forall|k: int| 0 <= k < s.len() ==> item_is(#[trigger] its[k], s[k])
}

/// The position after the run of `;` that starts at `q`.
pub open spec fn skip_semicolons(t: Seq<SpecToken>, q: int) -> int
    decreases t.len() - q,
{
    if 0 <= q < t.len() && t[q] is Semicolon {
        skip_semicolons(t, q + 1)
    } else {
        q
    }
}

/// Items from `p` on, up to the end or, where `nested`, up to a `}`:
/// the items, the position where reading stopped, and the errors in order.
pub open spec fn items_from(t: Seq<SpecToken>, p: int, nested: bool) -> (Seq<SpecItem>, int, Seq<ParserError>)
    decreases t.len() - p, 1int,
{
    if p < 0 || p >= t.len() || (nested && t[p] is RightBrace) {
        (seq![], p, seq![])
    } else {
        let (item, q, e) = item_at(t, p);
        if q <= p || q > t.len() {
            (seq![], p, seq![])
        } else {
            let (rest, end, e2) = items_from(t, q, nested);
            (match item {
                Some(i) => seq![i] + rest,
                None => rest,
            }, end, e + e2)
        }
    }
}

/// One item at `p`: `pub`? then `mod` or `contract`, a name, and then either `{` items `}` or a run of `;`.
/// Gives the item (none where keyword or name is missing), the position after it, and its errors.
pub open spec fn item_at(t: Seq<SpecToken>, p: int) -> (Option<SpecItem>, int, Seq<ParserError>)
    decreases t.len() - p, 0int,
{
    let public = 0 <= p < t.len() && t[p] is Pub;
    let q = if public { p + 1 } else { p };
    if q < 0 || q >= t.len() {
        (None, q, seq![ParserError::ExpectedItem])
    } else if !(t[q] is Mod || t[q] is Contract) {
        (None, q + 1, seq![ParserError::ExpectedItem])
    } else {
        let is_contract = t[q] is Contract;
        let q1 = q + 1;
        if q1 >= t.len() || !(t[q1] is Ident) {
            (None, q1, seq![ParserError::ExpectedIdentifier])
        } else {
            let name = t[q1]->Ident_0;
            let q2 = q1 + 1;
            if q2 < t.len() && t[q2] is LeftBrace {
                let (inner, e, errs) = items_from(t, q2 + 1, true);
                let item = SpecItem::Sub { public, name, is_contract, contents: inner };
                if 0 <= e < t.len() && t[e] is RightBrace {
                    (Some(item), e + 1, errs)
                } else {
                    (Some(item), e, errs.push(ParserError::ExpectedRightBrace))
                }
            } else {
                let q3 = skip_semicolons(t, q2);
                if q3 > q2 {
                    (Some(SpecItem::Decl { public, name, has_semicolon: true }), q3, seq![])
                } else {
                    (Some(SpecItem::Decl { public, name, has_semicolon: false }), q2, seq![ParserError::ExpectedSemicolon])
                }
            }
        }
    }
}

fn copy_bytes(v: &Vec<u8>) -> (r: Vec<u8>)
    ensures
        r@ == v@,
{
    crate::ids::copy_vec(v)
}

proof fn lemma_items_from_end(t: Seq<SpecToken>, p: int, nested: bool)
    requires
        0 <= p <= t.len(),
    ensures
        p <= items_from(t, p, nested).1 <= t.len(),
    decreases t.len() - p, 1int,
{
    if p < t.len() && !(nested && t[p] is RightBrace) {
        let (item, q, e) = item_at(t, p);
        lemma_item_at_end(t, p);
        if q > p {
            lemma_items_from_end(t, q, nested);
        }
    }
}

proof fn lemma_item_at_end(t: Seq<SpecToken>, p: int)
    requires
        0 <= p < t.len(),
    ensures
        p < item_at(t, p).1 <= t.len(),
    decreases t.len() - p, 0int,
{
    let public = t[p] is Pub;
    let q = if public { p + 1 } else { p };
    if q < t.len() && (t[q] is Mod || t[q] is Contract) {
        let q1 = q + 1;
        if q1 < t.len() && t[q1] is Ident {
            let q2 = q1 + 1;
            if q2 < t.len() && t[q2] is LeftBrace {
                lemma_items_from_end(t, q2 + 1, true);
            } else {
                lemma_skip_bounds(t, q2);
            }
        }
    }
}

proof fn lemma_skip_bounds(t: Seq<SpecToken>, q: int)
    requires
        0 <= q <= t.len(),
    ensures
        q <= skip_semicolons(t, q) <= t.len(),
    decreases t.len() - q,
{
    if q < t.len() && t[q] is Semicolon {
        lemma_skip_bounds(t, q + 1);
    }
}

/// Parses items from `p` on, as `items_from` says.
fn parse_items(toks: &Vec<Token>, p: usize, nested: bool) -> (r: (Vec<Item>, usize, Vec<ParserError>))
    requires
        p <= toks@.len(),
    ensures
        items_are(r.0@, items_from(token_views(toks@), p as int, nested).0),
        r.1 as int == items_from(token_views(toks@), p as int, nested).1,
        r.2@ == items_from(token_views(toks@), p as int, nested).2,
    decreases toks@.len() - p, 1int,
{
    let ghost t = token_views(toks@);
    if p >= toks.len() {
        return (Vec::new(), p, Vec::new());
    }
    if nested {
        if let Token::RightBrace = &toks[p] {
            return (Vec::new(), p, Vec::new());
        }
    }
    let (item, q, mut e) = parse_item(toks, p);
    proof {
        lemma_item_at_end(t, p as int);
    }
    let (mut rest, end, mut e2) = parse_items(toks, q, nested);
    let ghost srest = items_from(t, q as int, nested).0;
    let ghost sitem = item_at(t, p as int).0;
    match item {
        Some(it) => {
            let ghost old_rest = rest@;
            rest.insert(0, it);
            proof {
                let si = sitem.unwrap();
                assert forall|k: int| 0 <= k < rest@.len() implies item_is(#[trigger] rest@[k], (seq![si] + srest)[k]) by {
                    if k > 0 {
                        assert(rest@[k] == old_rest[k - 1]);
                        assert((seq![si] + srest)[k] == srest[k - 1]);
                    }
                }
            }
        },
        None => {},
    }
    e.append(&mut e2);
    (rest, end, e)
}

/// Parses the item at `p`, as `item_at` says.
fn parse_item(toks: &Vec<Token>, p: usize) -> (r: (Option<Item>, usize, Vec<ParserError>))
    requires
        p < toks@.len(),
    ensures
        r.1 as int == item_at(token_views(toks@), p as int).1,
        r.2@ == item_at(token_views(toks@), p as int).2,
        match item_at(token_views(toks@), p as int).0 {
            Some(s) => r.0 matches Some(it) && item_is(it, s),
            None => r.0 is None,
        },
    decreases toks@.len() - p, 0int,
{
    let ghost t = token_views(toks@);
    let n = toks.len();
    let mut q: usize = p;
    let mut visibility = ItemVisibility::Private;
    if let Token::Pub = &toks[q] {
        visibility = ItemVisibility::Public;
        q = q + 1;
    }
    if q >= toks.len() {
        return (None, q, vec![ParserError::ExpectedItem]);
    }
    let is_contract = match &toks[q] {
        Token::Mod => false,
        Token::Contract => true,
        _ => {
            return (None, q + 1, vec![ParserError::ExpectedItem]);
        },
    };
    let q1 = q + 1;
    if q1 >= toks.len() {
        return (None, q1, vec![ParserError::ExpectedIdentifier]);
    }
    let name = match &toks[q1] {
        Token::Ident(w) => copy_bytes(w),
        _ => {
            return (None, q1, vec![ParserError::ExpectedIdentifier]);
        },
    };
    let q2 = q1 + 1;
    let mut opens = false;
    if q2 < toks.len() {
        if let Token::LeftBrace = &toks[q2] {
            opens = true;
        }
    }
    if opens {
        let (contents, e, mut errs) = parse_items(toks, q2 + 1, true);
        proof {
            lemma_items_from_end(t, q2 + 1, true);
        }
        let mut closed = false;
        if e < toks.len() {
            if let Token::RightBrace = &toks[e] {
                closed = true;
            }
        }
        let item = Item {
            kind: ItemKind::Submodules(ParsedSubModule {
                visibility,
                name: Ident { name },
                contents: ParsedModule { items: contents },
                is_contract,
            }),
        };
        if closed {
            (Some(item), e + 1, errs)
        } else {
            errs.push(ParserError::ExpectedRightBrace);
            (Some(item), e, errs)
        }
    } else {
        let mut q3: usize = q2;
        while q3 < toks.len() && is_semicolon(&toks[q3])
            invariant
                q2 <= q3 <= toks@.len(),
                t == token_views(toks@),
                skip_semicolons(t, q3 as int) == skip_semicolons(t, q2 as int),
            decreases toks@.len() - q3,
        {
            q3 = q3 + 1;
        }
        if q3 > q2 {
            (Some(Item { kind: ItemKind::ModuleDecl(ModuleDeclaration { visibility, ident: Ident { name }, has_semicolon: true }) }), q3, Vec::new())
        } else {
            (Some(Item { kind: ItemKind::ModuleDecl(ModuleDeclaration { visibility, ident: Ident { name }, has_semicolon: false }) }), q2, vec![ParserError::ExpectedSemicolon])
        }
    }
}

fn is_semicolon(t: &Token) -> (r: bool)
    ensures
        r == (t.spec_token() is Semicolon),
{
    match t {
        Token::Semicolon => true,
        _ => false,
    }
}

/// Parses a source text made of module and contract items.
/// Returns the module and the problems found, in source order.
pub fn parse_program_with_dummy_file(src: &str) -> (r: (ParsedModule, Vec<ParserError>))
    ensures
        items_are(r.0.items@, items_from(lex_from(src.spec_bytes(), 0), 0, false).0),
        r.1@ == items_from(lex_from(src.spec_bytes(), 0), 0, false).2,
{
    let toks = tokenize(src.as_bytes());
    let (items, _, errors) = parse_items(&toks, 0, false);
    (ParsedModule { items }, errors)
}

} // verus!
