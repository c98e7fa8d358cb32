//! The item a derive is applied to, read from its token trees.
use vstd::prelude::*;
use vstd::string::*;
use vstd::utf8::*;

use crate::derive::tokens::{str_text, token_text, CodeBuf, Delimiter, TokenTree, push_token};


verus! {

/// A named field: its name, the tokens of its type, the key it has in JSON (its name
/// unless renamed), and whether a missing key gives it its default value.
pub struct ParsedField {
    pub name: String,
    pub ty: Vec<TokenTree>,
    pub json_name: String,
    pub has_default: bool,
}

/// The fields of an enum variant.
pub enum VariantFields {
    Unit,
    Named(Vec<ParsedField>),
}

/// An enum variant: its name, its fields and the name it has in JSON.
pub struct ParsedVariant {
    pub name: String,
    pub fields: VariantFields,
    pub json_name: String,
}

/// What the item is.
pub enum ItemKind {
    Struct(Vec<ParsedField>),
    Enum(Vec<ParsedVariant>),
}

/// A struct or enum: its name, the tokens of its generic parameters (between `<` and
/// `>`), and its fields or variants.
pub struct ParsedItem {
    pub name: String,
    pub generics: Vec<TokenTree>,
    pub kind: ItemKind,
}

/// Why an item could not be read; the message becomes a compile error.
pub struct DeriveError {
    pub message: String,
}

/// A field as the specification sees it: names by their bytes.
pub struct FieldSpec {
    pub name: Seq<u8>,
    pub ty: Seq<TokenTree>,
    pub json: Seq<u8>,
    pub default: bool,
}

/// A variant as the specification sees it; `fields` is `None` for a unit variant.
pub struct VariantSpec {
    pub name: Seq<u8>,
    pub fields: Option<Seq<FieldSpec>>,
    pub json: Seq<u8>,
}

/// The kind of an item as the specification sees it.
pub enum KindSpec {
    Struct(Seq<FieldSpec>),
    Enum(Seq<VariantSpec>),
}

/// An item as the specification sees it.
pub struct ItemSpec {
    pub name: Seq<u8>,
    pub generics: Seq<TokenTree>,
    pub kind: KindSpec,
}

/// The options read from `#[nanojson(...)]` attributes: the first rename, and whether
/// `default` was given.
pub struct AttrSpec {
    pub rename: Option<Seq<u8>>,
    pub default: bool,
}

impl View for ParsedField {
    type V = FieldSpec;

    open spec fn view(&self) -> FieldSpec {
        FieldSpec {
            name: str_text(self.name),
            ty: self.ty@,
            json: str_text(self.json_name),
            default: self.has_default,
        }
    }
}

/// The fields as the specification sees them.
pub open spec fn fields_view(fs: Seq<ParsedField>) -> Seq<FieldSpec> {
    fs.map_values(|f: ParsedField| f@)
}

impl View for ParsedVariant {
    type V = VariantSpec;

    open spec fn view(&self) -> VariantSpec {
        VariantSpec {
            name: str_text(self.name),
            fields: match self.fields {
                VariantFields::Unit => None,
                VariantFields::Named(fs) => Some(fields_view(fs@)),
            },
            json: str_text(self.json_name),
        }
    }
}

/// The variants as the specification sees them.
pub open spec fn variants_view(vs: Seq<ParsedVariant>) -> Seq<VariantSpec> {
    vs.map_values(|v: ParsedVariant| v@)
}

impl View for ParsedItem {
    type V = ItemSpec;

    open spec fn view(&self) -> ItemSpec {
        ItemSpec {
            name: str_text(self.name),
            generics: self.generics@,
            kind: match self.kind {
                ItemKind::Struct(fs) => KindSpec::Struct(fields_view(fs@)),
                ItemKind::Enum(vs) => KindSpec::Enum(variants_view(vs@)),
            },
        }
    }
}

/// `r` is what the specification `s` gives: the same value, or an error with message `m`.
pub open spec fn gives<T: View>(r: Result<T, DeriveError>, s: Result<T::V, Seq<u8>>) -> bool {
    match s {
        Ok(v) => r matches Ok(x) && x@ == v,
        Err(m) => r matches Err(e) && str_text(e.message) == m,
    }
}

// ---- predicates on tokens ----

/// `t` is the punctuation character `c`.
pub open spec fn is_punct(t: TokenTree, c: char) -> bool {
    t matches TokenTree::Punct { ch, .. } && ch == c
}

/// `t` is the identifier whose bytes are `word`.
pub open spec fn is_word(t: TokenTree, word: Seq<u8>) -> bool {
    t matches TokenTree::Ident(s) && str_text(s) == word
}

/// `t` is a group with delimiter `d`.
pub open spec fn is_group(t: TokenTree, d: Delimiter) -> bool {
    t matches TokenTree::Group { delimiter, .. } && delimiter == d
}

/// The tokens inside a group (none for other tokens).
pub open spec fn group_stream(t: TokenTree) -> Seq<TokenTree> {
    match t {
        TokenTree::Group { stream, .. } => stream@,
        _ => Seq::empty(),
    }
}

// ---- the reading of an item, as a specification ----

/// Reading an identifier: its text and the tokens after it, or the error.
pub open spec fn ident_spec(ts: Seq<TokenTree>) -> Result<(String, Seq<TokenTree>), Seq<u8>> {
    if ts.len() == 0 {
        Err("unexpected end of input, expected identifier".spec_bytes())
    } else {
        match ts[0] {
            TokenTree::Ident(s) => Ok((s, ts.skip(1))),
            other => Err("expected identifier, got `".spec_bytes() + token_text(other) + "`".spec_bytes()),
        }
    }
}

/// The tokens after a visibility (`pub`, or `pub` and a parenthesized restriction).
pub open spec fn after_visibility(ts: Seq<TokenTree>) -> Seq<TokenTree> {
    if ts.len() > 0 && is_word(ts[0], "pub".spec_bytes()) {
        let r = ts.skip(1);
        if r.len() > 0 && is_group(r[0], Delimiter::Parenthesis) {
            r.skip(1)
        } else {
            r
        }
    } else {
        ts
    }
}

/// The tokens up to the first `,` (or the end), and those after that `,`.
pub open spec fn until_comma(ts: Seq<TokenTree>) -> (Seq<TokenTree>, Seq<TokenTree>)
    decreases ts.len(),
{
    if ts.len() == 0 {
        (Seq::empty(), ts)
    } else if is_punct(ts[0], ',') {
        (Seq::empty(), ts.skip(1))
    } else {
        let (a, r) = until_comma(ts.skip(1));
        (seq![ts[0]] + a, r)
    }
}

/// The generic parameters inside `<...>`, read after the `<` with `depth` angle
/// brackets open, and the tokens after the closing `>`; or the error.
pub open spec fn generics_body(ts: Seq<TokenTree>, depth: nat) -> Result<
    (Seq<TokenTree>, Seq<TokenTree>),
    Seq<u8>,
>
    decreases ts.len(),
{
    if ts.len() == 0 {
        Err("unexpected end of input inside generics".spec_bytes())
    } else {
        let t = ts[0];
        if is_punct(t, '>') && depth <= 1 {
            Ok((Seq::empty(), ts.skip(1)))
        } else {
            let d2: nat = if is_punct(t, '<') {
                depth + 1
            } else if is_punct(t, '>') {
                (depth - 1) as nat
            } else {
                depth
            };
            match generics_body(ts.skip(1), d2) {
                Ok((a, r)) => Ok((seq![t] + a, r)),
                Err(e) => Err(e),
            }
        }
    }
}

/// The generic parameters of an item (none without a `<`), and the tokens after them.
pub open spec fn generics_spec(ts: Seq<TokenTree>) -> Result<(Seq<TokenTree>, Seq<TokenTree>), Seq<u8>> {
    if ts.len() > 0 && is_punct(ts[0], '<') {
        generics_body(ts.skip(1), 1)
    } else {
        Ok((Seq::empty(), ts))
    }
}

/// The attributes (`#` and a group, each) in front of a field or variant, and the tokens
/// after them; or the error.
pub open spec fn leading_attrs(ts: Seq<TokenTree>) -> Result<(Seq<TokenTree>, Seq<TokenTree>), Seq<u8>>
    decreases ts.len(),
{
    if ts.len() > 0 && is_punct(ts[0], '#') {
        if ts.len() < 2 {
            Err("unexpected end of input after `#`".spec_bytes())
        } else if ts[1] is Group {
            match leading_attrs(ts.skip(2)) {
                Ok((a, r)) => Ok((seq![ts[0], ts[1]] + a, r)),
                Err(e) => Err(e),
            }
        } else {
            Err("expected `[...]` after `#`".spec_bytes())
        }
    } else {
        Ok((Seq::empty(), ts))
    }
}

/// A string literal's contents: the bytes between its quotes, if it is quoted and they are
/// valid UTF-8.
pub open spec fn literal_contents(lit: String) -> Option<Seq<u8>> {
    let b = str_text(lit);
    if b.len() >= 2 && b[0] == 0x22 && b[b.len() - 1] == 0x22 && valid_utf8(b.subrange(1, b.len() - 1)) {
        Some(b.subrange(1, b.len() - 1))
    } else {
        None
    }
}

/// The error for an option `key` that lacks its `=`.
pub open spec fn missing_eq(key: Seq<u8>) -> Seq<u8> {
    "expected `=` after `".spec_bytes() + key + "`".spec_bytes()
}

/// The error for an option `key` whose value is not a string literal.
pub open spec fn missing_literal(key: Seq<u8>) -> Seq<u8> {
    "expected string literal for `".spec_bytes() + key + "`".spec_bytes()
}

/// Reading the options inside `nanojson(...)`, separated by commas: `default`, or a key,
/// `=` and a string literal; a `rename` sets the JSON name if none was set.
pub open spec fn options_spec(ts: Seq<TokenTree>, acc: AttrSpec) -> Result<AttrSpec, Seq<u8>>
    decreases ts.len(),
{
    if ts.len() == 0 {
        Ok(acc)
    } else {
        match ident_spec(ts) {
            Err(e) => Err(e),
            Ok((key, r)) => {
                let k = str_text(key);
                if k == "default".spec_bytes() {
                    let r2 = if r.len() > 0 && is_punct(r[0], ',') { r.skip(1) } else { r };
                    options_spec(r2, AttrSpec { rename: acc.rename, default: true })
                } else if r.len() == 0 || !is_punct(r[0], '=') {
                    Err(missing_eq(k))
                } else if r.len() < 2 {
                    Err(missing_literal(k))
                } else {
                    match r[1] {
                        TokenTree::Literal(lit) => match literal_contents(lit) {
                            Some(v) => {
                                let acc2 = if k == "rename".spec_bytes() && acc.rename is None {
                                    AttrSpec { rename: Some(v), default: acc.default }
                                } else {
                                    acc
                                };
                                let r3 = r.skip(2);
                                let r4 = if r3.len() > 0 && is_punct(r3[0], ',') { r3.skip(1) } else { r3 };
                                options_spec(r4, acc2)
                            },
                            None => Err(missing_literal(k)),
                        },
                        _ => Err(missing_literal(k)),
                    }
                }
            },
        }
    }
}

/// Reading one attribute's tokens (inside `#[...]`): a `nanojson(...)` attribute adds its
/// options; any other attribute is passed over.
pub open spec fn attr_spec(ts: Seq<TokenTree>, acc: AttrSpec) -> Result<AttrSpec, Seq<u8>> {
    if !(ts.len() > 0 && is_word(ts[0], "nanojson".spec_bytes())) || ts.len() < 2 {
        Ok(acc)
    } else if is_group(ts[1], Delimiter::Parenthesis) {
        options_spec(group_stream(ts[1]), acc)
    } else {
        Err("expected `(...)` after `nanojson`".spec_bytes())
    }
}

/// Reading a list of attributes (`#` and a group, each) for their `nanojson` options.
pub open spec fn attrs_spec(ts: Seq<TokenTree>, acc: AttrSpec) -> Result<AttrSpec, Seq<u8>>
    decreases ts.len(),
{
    if ts.len() == 0 {
        Ok(acc)
    } else if is_punct(ts[0], '#') {
        if ts.len() < 2 {
            Ok(acc)
        } else if is_group(ts[1], Delimiter::Bracket) {
            match attr_spec(group_stream(ts[1]), acc) {
                Ok(a2) => attrs_spec(ts.skip(2), a2),
                Err(e) => Err(e),
            }
        } else {
            attrs_spec(ts.skip(2), acc)
        }
    } else {
        attrs_spec(ts.skip(1), acc)
    }
}

/// No options read yet.
pub open spec fn no_attrs() -> AttrSpec {
    AttrSpec { rename: None, default: false }
}

/// Reading an identifier leaves one token fewer.
pub proof fn lemma_ident_len(ts: Seq<TokenTree>)
    ensures
        ident_spec(ts) matches Ok((_, r)) ==> r.len() + 1 == ts.len(),
{
}

/// What follows a visibility is no longer than the tokens.
pub proof fn lemma_after_visibility_len(ts: Seq<TokenTree>)
    ensures
        after_visibility(ts).len() <= ts.len(),
{
}

/// What follows the tokens up to a comma is no longer than the tokens, and shorter when
/// there were any.
pub proof fn lemma_until_comma_len(ts: Seq<TokenTree>)
    ensures
        until_comma(ts).1.len() <= ts.len(),
        ts.len() > 0 ==> until_comma(ts).1.len() < ts.len(),
    decreases ts.len(),
{
    if ts.len() > 0 && !is_punct(ts[0], ',') {
        lemma_until_comma_len(ts.skip(1));
    }
}

/// What follows the leading attributes is no longer than the tokens.
pub proof fn lemma_leading_attrs_len(ts: Seq<TokenTree>)
    ensures
        leading_attrs(ts) matches Ok((_, r)) ==> r.len() <= ts.len(),
    decreases ts.len(),
{
    if ts.len() >= 2 && is_punct(ts[0], '#') && ts[1] is Group {
        lemma_leading_attrs_len(ts.skip(2));
    }
}

/// The error for a field name without a `:` after it.
pub open spec fn missing_colon(name: Seq<u8>) -> Seq<u8> {
    "expected `:` after field `".spec_bytes() + name + "`".spec_bytes()
}

/// The name a field or variant has in JSON: its rename, or its own name.
pub open spec fn json_name_of(a: AttrSpec, name: Seq<u8>) -> Seq<u8> {
    match a.rename {
        Some(j) => j,
        None => name,
    }
}

/// Reading the named fields inside a struct's or variant's braces.
pub open spec fn fields_spec(ts: Seq<TokenTree>) -> Result<Seq<FieldSpec>, Seq<u8>>
    decreases ts.len(),
{
    match leading_attrs(ts) {
        Err(e) => Err(e),
        Ok((attrs, r0)) => {
            let r = after_visibility(r0);
            if r.len() == 0 {
                Ok(Seq::empty())
            } else {
                match ident_spec(r) {
                    Err(e) => Err(e),
                    Ok((name, r2)) => {
                        let n = str_text(name);
                        if r2.len() == 0 || !is_punct(r2[0], ':') {
                            Err(missing_colon(n))
                        } else {
                            let (ty, r3) = until_comma(r2.skip(1));
                            match attrs_spec(attrs, no_attrs()) {
                                Err(e) => Err(e),
                                Ok(a) => {
                                    let f = FieldSpec {
                                        name: n,
                                        ty: ty,
                                        json: json_name_of(a, n),
                                        default: a.default,
                                    };
                                    proof {
                                        lemma_leading_attrs_len(ts);
                                        lemma_after_visibility_len(r0);
                                        lemma_until_comma_len(r2.skip(1));
                                    }
                                    match fields_spec(r3) {
                                        Ok(fs) => Ok(seq![f] + fs),
                                        Err(e) => Err(e),
                                    }
                                },
                            }
                        }
                    },
                }
            }
        },
    }
}

/// The error for a tuple variant.
pub open spec fn tuple_variant(name: Seq<u8>) -> Seq<u8> {
    "tuple variants are not supported by nanojson-derive (variant `".spec_bytes() + name
        + "`)".spec_bytes()
}

/// Reading the fields of a variant from the tokens after its name: named fields in
/// braces, or none; and the tokens after them.
pub open spec fn variant_fields_spec(name: Seq<u8>, ts: Seq<TokenTree>) -> Result<
    (Option<Seq<FieldSpec>>, Seq<TokenTree>),
    Seq<u8>,
> {
    if ts.len() > 0 && is_group(ts[0], Delimiter::Brace) {
        match fields_spec(group_stream(ts[0])) {
            Ok(fs) => Ok((Some(fs), ts.skip(1))),
            Err(e) => Err(e),
        }
    } else if ts.len() > 0 && is_group(ts[0], Delimiter::Parenthesis) {
        Err(tuple_variant(name))
    } else {
        Ok((None, ts))
    }
}

/// Reading the variants inside an enum's braces.
pub open spec fn variants_spec(ts: Seq<TokenTree>) -> Result<Seq<VariantSpec>, Seq<u8>>
    decreases ts.len(),
{
    match leading_attrs(ts) {
        Err(e) => Err(e),
        Ok((attrs, r)) => {
            if r.len() == 0 {
                Ok(Seq::empty())
            } else {
                match ident_spec(r) {
                    Err(e) => Err(e),
                    Ok((name, r2)) => {
                        let n = str_text(name);
                        match variant_fields_spec(n, r2) {
                            Err(e) => Err(e),
                            Ok((fl, r3)) => {
                                let r4 = if r3.len() > 0 && is_punct(r3[0], ',') {
                                    r3.skip(1)
                                } else {
                                    r3
                                };
                                match attrs_spec(attrs, no_attrs()) {
                                    Err(e) => Err(e),
                                    Ok(a) => {
                                        let v = VariantSpec { name: n, fields: fl, json: json_name_of(a, n) };
                                        proof {
                                            lemma_leading_attrs_len(ts);
                                        }
                                        match variants_spec(r4) {
                                            Ok(vs) => Ok(seq![v] + vs),
                                            Err(e) => Err(e),
                                        }
                                    },
                                }
                            },
                        }
                    },
                }
            }
        },
    }
}

/// The tokens after the item's outer attributes (`#` and what follows it, each).
pub open spec fn after_outer_attrs(ts: Seq<TokenTree>) -> Seq<TokenTree>
    decreases ts.len(),
{
    if ts.len() > 0 && is_punct(ts[0], '#') {
        after_outer_attrs(if ts.len() >= 2 { ts.skip(2) } else { ts.skip(1) })
    } else {
        ts
    }
}

/// The tokens from the first brace group on, or the error if there is none.
pub open spec fn to_body(ts: Seq<TokenTree>) -> Result<Seq<TokenTree>, Seq<u8>>
    decreases ts.len(),
{
    if ts.len() == 0 {
        Err("unexpected end of input in where clause".spec_bytes())
    } else if is_group(ts[0], Delimiter::Brace) {
        Ok(ts)
    } else {
        to_body(ts.skip(1))
    }
}

/// The tokens after a `where` clause, if there is one.
pub open spec fn after_where(ts: Seq<TokenTree>) -> Result<Seq<TokenTree>, Seq<u8>> {
    if ts.len() > 0 && is_word(ts[0], "where".spec_bytes()) {
        to_body(ts)
    } else {
        Ok(ts)
    }
}

/// Reading a whole item: outer attributes, visibility, `struct` or `enum`, its name, its
/// generic parameters, a `where` clause, and its body in braces.
pub open spec fn item_spec(ts: Seq<TokenTree>) -> Result<ItemSpec, Seq<u8>> {
    let r = after_visibility(after_outer_attrs(ts));
    match ident_spec(r) {
        Err(e) => Err(e),
        Ok((kw, r1)) => {
            let k = str_text(kw);
            if k != "struct".spec_bytes() && k != "enum".spec_bytes() {
                Err("nanojson-derive only supports `struct` and `enum`".spec_bytes())
            } else {
                match ident_spec(r1) {
                    Err(e) => Err(e),
                    Ok((name, r2)) => match generics_spec(r2) {
                        Err(e) => Err(e),
                        Ok((g, r3)) => match after_where(r3) {
                            Err(e) => Err(e),
                            Ok(r4) => if r4.len() == 0 || !is_group(r4[0], Delimiter::Brace) {
                                Err("expected `{...}` body".spec_bytes())
                            } else {
                                let body = group_stream(r4[0]);
                                let kind: Result<KindSpec, Seq<u8>> = if k == "struct".spec_bytes() {
                                    match fields_spec(body) {
                                        Ok(fs) => Ok(KindSpec::Struct(fs)),
                                        Err(e) => Err(e),
                                    }
                                } else {
                                    match variants_spec(body) {
                                        Ok(vs) => Ok(KindSpec::Enum(vs)),
                                        Err(e) => Err(e),
                                    }
                                };
                                match kind {
                                    Ok(kd) => Ok(ItemSpec { name: str_text(name), generics: g, kind: kd }),
                                    Err(e) => Err(e),
                                }
                            },
                        },
                    },
                }
            }
        },
    }
}

// ---- reading, as code ----

/// The sequence in reverse order.
pub open spec fn reversed<T>(s: Seq<T>) -> Seq<T> {
    Seq::new(s.len(), |i: int| s[s.len() - 1 - i])
}

/// Token trees still to be read, the next one first.
pub struct Tokens {
    rev: Vec<TokenTree>,
}

/// Whether two byte strings are equal.
fn bytes_eq(a: &[u8], b: &[u8]) -> (r: bool)
    ensures
        r == (a@ == b@),
{
    if a.len() != b.len() {
        return false;
    }
    let mut i: usize = 0;
    while i < a.len()
        invariant
            i <= a.len() == b.len(),
            forall|k: int| 0 <= k < i ==> a@[k] == b@[k],
        decreases a.len() - i,
    {
        if a[i] != b[i] {
            return false;
        }
        i = i + 1;
    }
    assert(a@ =~= b@);
    true
}

/// Whether the string is the word `w`.
fn text_is(s: &String, w: &str) -> (r: bool)
    ensures
        r == (str_text(*s) == w.spec_bytes()),
{
    bytes_eq(s.as_str().as_bytes(), w.as_bytes())
}

/// An error with a fixed message.
fn fixed_error(m: &str) -> (e: DeriveError)
    ensures
        str_text(e.message) == m.spec_bytes(),
{
    let mut b = CodeBuf::new();
    b.push(m);
    assert(b.text() =~= m.spec_bytes());
    DeriveError { message: b.into_string() }
}

/// An error whose message holds a name between two fixed parts.
fn named_error(a: &str, name: &String, z: &str) -> (e: DeriveError)
    ensures
        str_text(e.message) == a.spec_bytes() + str_text(*name) + z.spec_bytes(),
{
    let mut b = CodeBuf::new();
    b.push(a);
    b.push(name.as_str());
    b.push(z);
    assert(b.text() =~= a.spec_bytes() + str_text(*name) + z.spec_bytes());
    DeriveError { message: b.into_string() }
}

/// An error whose message holds a token's text between two fixed parts.
fn token_error(a: &str, t: &TokenTree, z: &str) -> (e: DeriveError)
    ensures
        str_text(e.message) == a.spec_bytes() + token_text(*t) + z.spec_bytes(),
{
    let mut b = CodeBuf::new();
    b.push(a);
    push_token(&mut b, t);
    b.push(z);
    assert(b.text() =~= a.spec_bytes() + token_text(*t) + z.spec_bytes());
    DeriveError { message: b.into_string() }
}

impl Tokens {
    /// The token trees still to be read.
    pub closed spec fn rest(self) -> Seq<TokenTree> {
        reversed(self.rev@)
    }

    pub fn new(ts: Vec<TokenTree>) -> (t: Self)
        ensures
            t.rest() == ts@,
    {
        let ghost orig = ts@;
        let mut ts = ts;
        let mut rev: Vec<TokenTree> = Vec::new();
        assert(orig =~= ts@ + reversed(rev@));
        while ts.len() > 0
            invariant
                orig == ts@ + reversed(rev@),
            decreases ts.len(),
        {
            let ghost before_ts = ts@;
            let ghost before_rev = rev@;
            match ts.pop() {
                Some(x) => {
                    rev.push(x);
                    assert(reversed(rev@) =~= seq![x] + reversed(before_rev));
                    assert(before_ts =~= ts@ + seq![x]);
                    assert(orig =~= ts@ + reversed(rev@));
                },
                None => {},
            }
        }
        assert(orig =~= reversed(rev@));
        Tokens { rev }
    }

    /// Nothing is left to read.
    pub fn is_empty(&self) -> (r: bool)
        ensures
            r == (self.rest().len() == 0),
    {
        self.rev.len() == 0
    }

    /// The next token is the punctuation character `c`.
    pub fn peek_punct(&self, c: char) -> (r: bool)
        ensures
            r == (self.rest().len() > 0 && is_punct(self.rest()[0], c)),
    {
        let n = self.rev.len();
        if n == 0 {
            false
        } else {
            match &self.rev[n - 1] {
                TokenTree::Punct { ch, .. } => *ch == c,
                _ => false,
            }
        }
    }

    /// The next token is a group with delimiter `d`.
    pub fn peek_group(&self, d: Delimiter) -> (r: bool)
        ensures
            r == (self.rest().len() > 0 && is_group(self.rest()[0], d)),
    {
        let n = self.rev.len();
        if n == 0 {
            false
        } else {
            match &self.rev[n - 1] {
                TokenTree::Group { delimiter, .. } => *delimiter == d,
                _ => false,
            }
        }
    }

    /// The next token is the identifier `w`.
    pub fn peek_word(&self, w: &str) -> (r: bool)
        ensures
            r == (self.rest().len() > 0 && is_word(self.rest()[0], w.spec_bytes())),
    {
        let n = self.rev.len();
        if n == 0 {
            false
        } else {
            match &self.rev[n - 1] {
                TokenTree::Ident(s) => text_is(s, w),
                _ => false,
            }
        }
    }

    /// Takes the next token.
    pub fn next(&mut self) -> (r: Option<TokenTree>)
        ensures
            old(self).rest().len() > 0 ==> r == Some(old(self).rest()[0]) && final(self).rest()
                == old(self).rest().skip(1),
            old(self).rest().len() == 0 ==> r is None && final(self).rest() == old(self).rest(),
    {
        let r = self.rev.pop();
        assert(reversed(self.rev@) =~= if old(self).rev@.len() > 0 {
            reversed(old(self).rev@).skip(1)
        } else {
            reversed(old(self).rev@)
        });
        r
    }

    /// Passes over the next token, if there is one.
    pub fn skip(&mut self)
        ensures
            final(self).rest() == if old(self).rest().len() > 0 {
                old(self).rest().skip(1)
            } else {
                old(self).rest()
            },
    {
        let _ = self.next();
    }

    /// Reads an identifier.
    pub fn next_ident(&mut self) -> (r: Result<String, DeriveError>)
        ensures
            match ident_spec(old(self).rest()) {
                Ok((s, rest)) => r == Ok::<String, DeriveError>(s) && final(self).rest() == rest,
                Err(m) => r matches Err(e) && str_text(e.message) == m,
            },
    {
        match self.next() {
            Some(TokenTree::Ident(i)) => Ok(i),
            Some(other) => Err(token_error("expected identifier, got `", &other, "`")),
            None => Err(fixed_error("unexpected end of input, expected identifier")),
        }
    }

    /// Passes over a visibility: `pub`, or `pub` and a parenthesized restriction.
    pub fn skip_visibility(&mut self)
        ensures
            final(self).rest() == after_visibility(old(self).rest()),
    {
        if self.peek_word("pub") {
            self.skip();
            if self.peek_group(Delimiter::Parenthesis) {
                self.skip();
            }
        }
    }

    /// Takes the tokens up to the next `,` (or the end), and passes over that `,`.
    pub fn collect_until_comma(&mut self) -> (out: Vec<TokenTree>)
        ensures
            (out@, final(self).rest()) == until_comma(old(self).rest()),
    {
        let ghost orig = self.rest();
        let mut out: Vec<TokenTree> = Vec::new();
        assert(out@ + until_comma(self.rest()).0 =~= until_comma(self.rest()).0);
        while !self.is_empty() && !self.peek_punct(',')
            invariant
                orig == old(self).rest(),
                until_comma(orig) == (out@ + until_comma(self.rest()).0, until_comma(self.rest()).1),
            decreases self.rest().len(),
        {
            let ghost before = self.rest();
            let ghost before_out = out@;
            match self.next() {
                Some(t) => {
                    out.push(t);
                    assert(until_comma(before).0 == seq![t] + until_comma(self.rest()).0);
                    assert(before_out + until_comma(before).0 =~= out@ + until_comma(self.rest()).0);
                },
                None => {},
            }
        }
        self.skip();
        assert(out@ + Seq::<TokenTree>::empty() =~= out@);
        out
    }

    /// Takes the generic parameters between `<` and its matching `>` (none without a `<`).
    pub fn collect_generics(&mut self) -> (r: Result<Vec<TokenTree>, DeriveError>)
        ensures
            match generics_spec(old(self).rest()) {
                Ok((g, rest)) => r matches Ok(v) && v@ == g && final(self).rest() == rest,
                Err(m) => r matches Err(e) && str_text(e.message) == m,
            },
    {
        let ghost orig = self.rest();
        if !self.peek_punct('<') {
            return Ok(Vec::new());
        }
        let n = self.rev.len();
        assert(orig.len() == n);
        self.skip();
        let mut out: Vec<TokenTree> = Vec::new();
        let mut depth: u128 = 1;
        proof {
            match generics_body(self.rest(), 1) {
                Ok((a, r)) => {
                    assert(out@ + a =~= a);
                },
                Err(e) => {},
            }
        }
        loop
            invariant
                orig == old(self).rest(),
                1 <= depth,
                depth <= orig.len() - self.rest().len(),
                orig.len() <= usize::MAX,
                self.rest().len() <= orig.len(),
                generics_spec(orig) == match generics_body(self.rest(), depth as nat) {
                    Ok((a, r)) => Ok::<(Seq<TokenTree>, Seq<TokenTree>), Seq<u8>>((out@ + a, r)),
                    Err(e) => Err(e),
                },
            decreases self.rest().len(),
        {
            let ghost before = self.rest();
            let ghost before_out = out@;
            let t = match self.next() {
                Some(t) => t,
                None => {
                    return Err(fixed_error("unexpected end of input inside generics"));
                },
            };
            let (is_lt, is_gt) = match &t {
                TokenTree::Punct { ch, .. } => (*ch == '<', *ch == '>'),
                _ => (false, false),
            };
            if is_gt && depth <= 1 {
                assert(out@ + Seq::<TokenTree>::empty() =~= out@);
                return Ok(out);
            }
            if is_lt {
                depth = depth + 1;
            } else if is_gt {
                depth = depth - 1;
            }
            out.push(t);
            proof {
                match generics_body(self.rest(), depth as nat) {
                    Ok((a, r)) => {
                        assert(before_out + (seq![t] + a) =~= out@ + a);
                    },
                    Err(e) => {},
                }
            }
        }
    }

    /// Takes the attributes (`#` and a group, each) in front of a field or variant.
    pub fn leading_attrs(&mut self) -> (r: Result<Vec<TokenTree>, DeriveError>)
        ensures
            match leading_attrs(old(self).rest()) {
                Ok((a, rest)) => r matches Ok(v) && v@ == a && final(self).rest() == rest,
                Err(m) => r matches Err(e) && str_text(e.message) == m,
            },
    {
        let ghost orig = self.rest();
        let mut out: Vec<TokenTree> = Vec::new();
        assert(orig == self.rest());
        proof {
            match leading_attrs(orig) {
                Ok((a, r)) => {
                    assert(out@ + a =~= a);
                },
                Err(e) => {},
            }
        }
        while self.peek_punct('#')
            invariant
                orig == old(self).rest(),
                leading_attrs(orig) == match leading_attrs(self.rest()) {
                    Ok((a, r)) => Ok::<(Seq<TokenTree>, Seq<TokenTree>), Seq<u8>>((out@ + a, r)),
                    Err(e) => Err(e),
                },
            decreases self.rest().len(),
        {
            let ghost before = self.rest();
            let ghost before_out = out@;
            let h = match self.next() {
                Some(h) => h,
                None => {
                    return Err(fixed_error("unexpected end of input after `#`"));
                },
            };
            match self.next() {
                None => {
                    return Err(fixed_error("unexpected end of input after `#`"));
                },
                Some(g) => {
                    if matches!(g, TokenTree::Group { .. }) {
                        out.push(h);
                        out.push(g);
                        proof {
                            assert(self.rest() =~= before.skip(2));
                            match leading_attrs(self.rest()) {
                                Ok((a, r)) => {
                                    assert(before_out + (seq![h, g] + a) =~= out@ + a);
                                },
                                Err(e) => {},
                            }
                        }
                    } else {
                        return Err(fixed_error("expected `[...]` after `#`"));
                    }
                },
            }
        }
        proof {
            assert(out@ + Seq::<TokenTree>::empty() =~= out@);
        }
        Ok(out)
    }
}

/// The options read from `#[nanojson(...)]` attributes.
pub struct Attrs {
    pub rename: Option<String>,
    pub default: bool,
}

impl View for Attrs {
    type V = AttrSpec;

    open spec fn view(&self) -> AttrSpec {
        AttrSpec {
            rename: match self.rename {
                Some(s) => Some(str_text(s)),
                None => None,
            },
            default: self.default,
        }
    }
}

/// The contents of a string literal, between its quotes.
fn literal_value(lit: &String) -> (r: Option<String>)
    ensures
        match literal_contents(*lit) {
            Some(v) => r matches Some(s) && str_text(s) == v,
            None => r is None,
        },
{
    let b = lit.as_str().as_bytes();
    let n = b.len();
    if n < 2 || b[0] != 0x22 || b[n - 1] != 0x22 {
        return None;
    }
    let mut inner: Vec<u8> = Vec::new();
    let mut i: usize = 1;
    while i < n - 1
        invariant
            1 <= i <= n - 1,
            n == b@.len(),
            inner@ == b@.subrange(1, i as int),
        decreases n - 1 - i,
    {
        inner.push(b[i]);
        i = i + 1;
        assert(inner@ =~= b@.subrange(1, i as int));
    }
    crate::text::string_from_utf8(inner)
}

/// Reads the options inside `nanojson(...)`.
fn parse_options(stream: Vec<TokenTree>, start: Attrs) -> (r: Result<Attrs, DeriveError>)
    ensures
        gives(r, options_spec(stream@, start@)),
{
    let ghost goal = options_spec(stream@, start@);
    let mut toks = Tokens::new(stream);
    let mut acc = start;
    while !toks.is_empty()
        invariant
            goal == options_spec(stream@, start@),
            goal == options_spec(toks.rest(), acc@),
        decreases toks.rest().len(),
    {
        let ghost before = toks.rest();
        let key = match toks.next_ident() {
            Ok(k) => k,
            Err(e) => {
                return Err(e);
            },
        };
        if text_is(&key, "default") {
            acc = Attrs { rename: acc.rename, default: true };
            if toks.peek_punct(',') {
                toks.skip();
            }
        } else {
            if !toks.peek_punct('=') {
                return Err(named_error("expected `=` after `", &key, "`"));
            }
            let ghost r = toks.rest();
            toks.skip();
            let t = toks.next();
            proof {
                if r.len() >= 2 {
                    assert(toks.rest() =~= r.skip(2));
                    assert(r.skip(1)[0] == r[1]);
                }
            }
            match t {
                Some(TokenTree::Literal(lit)) => match literal_value(&lit) {
                    Some(v) => {
                        if text_is(&key, "rename") && acc.rename.is_none() {
                            acc = Attrs { rename: Some(v), default: acc.default };
                        }
                        if toks.peek_punct(',') {
                            toks.skip();
                        }
                    },
                    None => {
                        return Err(named_error("expected string literal for `", &key, "`"));
                    },
                },
                _ => {
                    return Err(named_error("expected string literal for `", &key, "`"));
                },
            }
        }
    }
    Ok(acc)
}

/// Reads one attribute's tokens (inside `#[...]`): a `nanojson(...)` attribute adds its
/// options to `acc`; any other attribute leaves it as it is.
fn parse_nanojson_attr(stream: Vec<TokenTree>, acc: Attrs) -> (r: Result<Attrs, DeriveError>)
    ensures
        gives(r, attr_spec(stream@, acc@)),
{
    let mut toks = Tokens::new(stream);
    if !toks.peek_word("nanojson") {
        return Ok(acc);
    }
    toks.skip();
    match toks.next() {
        None => Ok(acc),
        Some(TokenTree::Group { delimiter: Delimiter::Parenthesis, stream: inner }) => parse_options(
            inner,
            acc,
        ),
        Some(_) => Err(fixed_error("expected `(...)` after `nanojson`")),
    }
}

/// Reads a list of attributes (`#` and a group, each) for their `nanojson` options.
fn parse_attrs(attrs: Vec<TokenTree>) -> (r: Result<Attrs, DeriveError>)
    ensures
        gives(r, attrs_spec(attrs@, no_attrs())),
{
    let ghost goal = attrs_spec(attrs@, no_attrs());
    let mut toks = Tokens::new(attrs);
    let mut acc = Attrs { rename: None, default: false };
    while !toks.is_empty()
        invariant
            goal == attrs_spec(attrs@, no_attrs()),
            goal == attrs_spec(toks.rest(), acc@),
        decreases toks.rest().len(),
    {
        if toks.peek_punct('#') {
            let ghost before = toks.rest();
            toks.skip();
            let t = toks.next();
            proof {
                if before.len() >= 2 {
                    assert(toks.rest() =~= before.skip(2));
                    assert(before.skip(1)[0] == before[1]);
                }
            }
            match t {
                Some(TokenTree::Group { delimiter: Delimiter::Bracket, stream }) => {
                    match parse_nanojson_attr(stream, acc) {
                        Ok(a) => {
                            acc = a;
                        },
                        Err(e) => {
                            return Err(e);
                        },
                    }
                },
                _ => {},
            }
        } else {
            toks.skip();
        }
    }
    Ok(acc)
}

/// The fields read, and the result of reading the rest, as the result of reading all.
pub open spec fn fields_after(done: Seq<ParsedField>, rest: Result<Seq<FieldSpec>, Seq<u8>>) -> Result<
    Seq<FieldSpec>,
    Seq<u8>,
> {
    match rest {
        Ok(fs) => Ok(fields_view(done) + fs),
        Err(e) => Err(e),
    }
}

/// One field read at the front of the tokens: reading all fields gives it, then the
/// fields after it.
proof fn lemma_fields_step(
    ts: Seq<TokenTree>,
    attrs: Seq<TokenTree>,
    r0: Seq<TokenTree>,
    name: String,
    r2: Seq<TokenTree>,
    ty: Seq<TokenTree>,
    r3: Seq<TokenTree>,
    a: AttrSpec,
)
    requires
        leading_attrs(ts) == Ok::<(Seq<TokenTree>, Seq<TokenTree>), Seq<u8>>((attrs, r0)),
        after_visibility(r0).len() > 0,
        ident_spec(after_visibility(r0)) == Ok::<(String, Seq<TokenTree>), Seq<u8>>((name, r2)),
        r2.len() > 0,
        is_punct(r2[0], ':'),
        until_comma(r2.skip(1)) == (ty, r3),
        attrs_spec(attrs, no_attrs()) == Ok::<AttrSpec, Seq<u8>>(a),
    ensures
        fields_spec(ts) == match fields_spec(r3) {
            Ok(fs) => Ok::<Seq<FieldSpec>, Seq<u8>>(
                seq![
                    FieldSpec {
                        name: str_text(name),
                        ty: ty,
                        json: json_name_of(a, str_text(name)),
                        default: a.default,
                    },
                ] + fs,
            ),
            Err(e) => Err(e),
        },
{
}

/// Reads the named fields inside a struct's or variant's braces.
pub fn parse_named_fields(stream: Vec<TokenTree>) -> (r: Result<Vec<ParsedField>, DeriveError>)
    ensures
        match fields_spec(stream@) {
            Ok(fs) => r matches Ok(v) && fields_view(v@) == fs,
            Err(m) => r matches Err(e) && str_text(e.message) == m,
        },
{
    let ghost goal = fields_spec(stream@);
    let mut toks = Tokens::new(stream);
    let mut fields: Vec<ParsedField> = Vec::new();
    assert(fields_view(fields@) =~= Seq::<FieldSpec>::empty());
    proof {
        if let Ok(fs) = goal {
            assert(Seq::<FieldSpec>::empty() + fs =~= fs);
        }
    }
    loop
        invariant
            goal == fields_spec(stream@),
            goal == fields_after(fields@, fields_spec(toks.rest())),
        decreases toks.rest().len(),
    {
        let ghost before = toks.rest();
        let attrs = match toks.leading_attrs() {
            Ok(a) => a,
            Err(e) => {
                return Err(e);
            },
        };
        let ghost r0 = toks.rest();
        let ghost attrs_seq = attrs@;
        toks.skip_visibility();
        if toks.is_empty() {
            assert(fields_view(fields@) + Seq::<FieldSpec>::empty() =~= fields_view(fields@));
            return Ok(fields);
        }
        let ghost r = toks.rest();
        let name = match toks.next_ident() {
            Ok(n) => n,
            Err(e) => {
                return Err(e);
            },
        };
        let ghost r2 = toks.rest();
        if !toks.peek_punct(':') {
            return Err(named_error("expected `:` after field `", &name, "`"));
        }
        toks.skip();
        let ty = toks.collect_until_comma();
        let ghost r3 = toks.rest();
        let a = match parse_attrs(attrs) {
            Ok(a) => a,
            Err(e) => {
                return Err(e);
            },
        };
        let json_name = match a.rename {
            Some(j) => j,
            None => name.clone(),
        };
        let ghost a_spec = a@;
        let ghost name_copy = name;
        let f = ParsedField { name, ty, json_name, has_default: a.default };
        let ghost before_fields = fields@;
        fields.push(f);
        proof {
            lemma_leading_attrs_len(before);
            lemma_after_visibility_len(r0);
            lemma_fields_step(before, attrs_seq, r0, name_copy, r2, f.ty@, r3, a_spec);
            lemma_ident_len(r);
            lemma_until_comma_len(r2.skip(1));
            assert(toks.rest().len() < before.len());
            assert(f@ == FieldSpec {
                name: str_text(name_copy),
                ty: f.ty@,
                json: json_name_of(a_spec, str_text(name_copy)),
                default: a_spec.default,
            });
            assert(fields_view(fields@) =~= fields_view(before_fields) + seq![f@]);
            match fields_spec(toks.rest()) {
                Ok(fs) => {
                    assert(fields_view(before_fields) + (seq![f@] + fs) =~= fields_view(fields@) + fs);
                },
                Err(e) => {},
            }
        }
    }
}

/// The variants read, and the result of reading the rest, as the result of reading all.
pub open spec fn variants_after(done: Seq<ParsedVariant>, rest: Result<Seq<VariantSpec>, Seq<u8>>) -> Result<
    Seq<VariantSpec>,
    Seq<u8>,
> {
    match rest {
        Ok(vs) => Ok(variants_view(done) + vs),
        Err(e) => Err(e),
    }
}

/// Reads the variants inside an enum's braces.
pub fn parse_variants(stream: Vec<TokenTree>) -> (r: Result<Vec<ParsedVariant>, DeriveError>)
    ensures
        match variants_spec(stream@) {
            Ok(vs) => r matches Ok(v) && variants_view(v@) == vs,
            Err(m) => r matches Err(e) && str_text(e.message) == m,
        },
{
    let ghost goal = variants_spec(stream@);
    let mut toks = Tokens::new(stream);
    let mut variants: Vec<ParsedVariant> = Vec::new();
    assert(variants_view(variants@) =~= Seq::<VariantSpec>::empty());
    proof {
        if let Ok(vs) = goal {
            assert(Seq::<VariantSpec>::empty() + vs =~= vs);
        }
    }
    loop
        invariant
            goal == variants_spec(stream@),
            goal == variants_after(variants@, variants_spec(toks.rest())),
        decreases toks.rest().len(),
    {
        let ghost before = toks.rest();
        let attrs = match toks.leading_attrs() {
            Ok(a) => a,
            Err(e) => {
                return Err(e);
            },
        };
        if toks.is_empty() {
            assert(variants_view(variants@) + Seq::<VariantSpec>::empty() =~= variants_view(variants@));
            return Ok(variants);
        }
        let name = match toks.next_ident() {
            Ok(n) => n,
            Err(e) => {
                return Err(e);
            },
        };
        let fields = if toks.peek_group(Delimiter::Brace) {
            match toks.next() {
                Some(TokenTree::Group { stream: inner, .. }) => match parse_named_fields(inner) {
                    Ok(fs) => VariantFields::Named(fs),
                    Err(e) => {
                        return Err(e);
                    },
                },
                _ => VariantFields::Unit,
            }
        } else if toks.peek_group(Delimiter::Parenthesis) {
            return Err(named_error(
                "tuple variants are not supported by nanojson-derive (variant `",
                &name,
                "`)",
            ));
        } else {
            VariantFields::Unit
        };
        if toks.peek_punct(',') {
            toks.skip();
        }
        let a = match parse_attrs(attrs) {
            Ok(a) => a,
            Err(e) => {
                return Err(e);
            },
        };
        let json_name = match a.rename {
            Some(j) => j,
            None => name.clone(),
        };
        let v = ParsedVariant { name, fields, json_name };
        let ghost before_variants = variants@;
        variants.push(v);
        proof {
            lemma_leading_attrs_len(before);
            assert(variants_view(variants@) =~= variants_view(before_variants) + seq![v@]);
            match variants_spec(toks.rest()) {
                Ok(vs) => {
                    assert(variants_view(before_variants) + (seq![v@] + vs) =~= variants_view(variants@) + vs);
                },
                Err(e) => {},
            }
        }
    }
}

impl Tokens {
    /// Passes over the item's outer attributes (`#` and what follows it, each).
    pub fn skip_outer_attrs(&mut self)
        ensures
            final(self).rest() == after_outer_attrs(old(self).rest()),
    {
        while self.peek_punct('#')
            invariant
                after_outer_attrs(old(self).rest()) == after_outer_attrs(self.rest()),
            decreases self.rest().len(),
        {
            let ghost before = self.rest();
            self.skip();
            self.skip();
            assert(self.rest() =~= if before.len() >= 2 { before.skip(2) } else { before.skip(1) });
        }
    }

    /// Passes over a `where` clause, up to the item's body.
    pub fn skip_where(&mut self) -> (r: Result<(), DeriveError>)
        ensures
            match after_where(old(self).rest()) {
                Ok(rest) => r is Ok && final(self).rest() == rest,
                Err(m) => r matches Err(e) && str_text(e.message) == m,
            },
    {
        if !self.peek_word("where") {
            return Ok(());
        }
        loop
            invariant
                after_where(old(self).rest()) == to_body(self.rest()),
            decreases self.rest().len(),
        {
            if self.peek_group(Delimiter::Brace) {
                return Ok(());
            }
            if self.is_empty() {
                return Err(fixed_error("unexpected end of input in where clause"));
            }
            self.skip();
        }
    }
}

/// Reads the item a derive is applied to.
pub fn parse_item(ts: Vec<TokenTree>) -> (r: Result<ParsedItem, DeriveError>)
    ensures
        gives(r, item_spec(ts@)),
{
    let mut toks = Tokens::new(ts);
    toks.skip_outer_attrs();
    toks.skip_visibility();
    let kw = match toks.next_ident() {
        Ok(k) => k,
        Err(e) => {
            return Err(e);
        },
    };
    let is_struct = text_is(&kw, "struct");
    if !is_struct && !text_is(&kw, "enum") {
        return Err(fixed_error("nanojson-derive only supports `struct` and `enum`"));
    }
    let name = match toks.next_ident() {
        Ok(n) => n,
        Err(e) => {
            return Err(e);
        },
    };
    let generics = match toks.collect_generics() {
        Ok(g) => g,
        Err(e) => {
            return Err(e);
        },
    };
    match toks.skip_where() {
        Ok(()) => {},
        Err(e) => {
            return Err(e);
        },
    }
    let body = match toks.next() {
        Some(TokenTree::Group { delimiter: Delimiter::Brace, stream }) => stream,
        _ => {
            return Err(fixed_error("expected `{...}` body"));
        },
    };
    let kind = if is_struct {
        match parse_named_fields(body) {
            Ok(fs) => ItemKind::Struct(fs),
            Err(e) => {
                return Err(e);
            },
        }
    } else {
        match parse_variants(body) {
            Ok(vs) => ItemKind::Enum(vs),
            Err(e) => {
                return Err(e);
            },
        }
    };
    Ok(ParsedItem { name, generics, kind })
}

} // verus!
