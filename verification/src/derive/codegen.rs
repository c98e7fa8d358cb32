//! The Rust source of the derived impls, written for this library's traits.
use vstd::prelude::*;
use vstd::string::*;
use vstd::utf8::*;

use crate::derive::item::{
    fields_view, variants_view, FieldSpec, ItemKind, ItemSpec, KindSpec, ParsedField,
    ParsedItem, ParsedVariant, VariantFields, VariantSpec,
};
use crate::derive::tokens::{
    char_text, push_stream, str_text, stream_text, CodeBuf, TokenTree,
};

verus! {

/// The text a character has inside a Rust string literal.
pub open spec fn escaped_char(c: char) -> Seq<u8> {
    if c == '"' {
        "\\\"".spec_bytes()
    } else if c == '\\' {
        "\\\\".spec_bytes()
    } else if c == '\n' {
        "\\n".spec_bytes()
    } else if c == '\r' {
        "\\r".spec_bytes()
    } else if c == '\t' {
        "\\t".spec_bytes()
    } else {
        char_text(c)
    }
}

/// The characters as they stand inside a Rust string literal.
pub open spec fn escaped_chars(cs: Seq<char>) -> Seq<u8>
    decreases cs.len(),
{
    if cs.len() == 0 {
        Seq::empty()
    } else {
        escaped_chars(cs.drop_last()) + escaped_char(cs.last())
    }
}

/// A Rust string literal that holds the characters.
pub open spec fn rust_literal(cs: Seq<char>) -> Seq<u8> {
    "\"".spec_bytes() + escaped_chars(cs) + "\"".spec_bytes()
}

/// Appends a Rust string literal that holds the characters of `s`.
pub fn push_rust_literal(out: &mut CodeBuf, s: &str)
    requires
        old(out).wf(),
    ensures
        final(out).wf(),
        final(out).text() == old(out).text() + rust_literal(s@),
{
    broadcast use vstd::string::axiom_spec_iter;

    let ghost start = out.text();
    out.push("\"");
    for c in it: s.chars()
        invariant
            out.wf(),
            it.seq() == s@,
            out.text() == start + "\"".spec_bytes() + escaped_chars(s@.take(it.index() as int)),
    {
        let ghost i = it.index();
        if c == '"' {
            out.push("\\\"");
        } else if c == '\\' {
            out.push("\\\\");
        } else if c == '\n' {
            out.push("\\n");
        } else if c == '\r' {
            out.push("\\r");
        } else if c == '\t' {
            out.push("\\t");
        } else {
            out.push_char(c);
        }
        assert(s@.take(i + 1).drop_last() =~= s@.take(i as int));
        assert(out.text() =~= start + "\"".spec_bytes() + escaped_chars(s@.take(i + 1)));
    }
    assert(s@.take(s@.len() as int) =~= s@);
    out.push("\"");
    assert(out.text() =~= start + rust_literal(s@));
}

/// A Rust string literal for a JSON key name.
pub fn escape_rust_str(s: &str) -> (r: String)
    ensures
        str_text(r) == rust_literal(s@),
{
    let mut out = CodeBuf::new();
    push_rust_literal(&mut out, s);
    assert(out.text() =~= rust_literal(s@));
    out.into_string()
}

/// A Rust string literal holding the characters whose UTF-8 bytes are `b`.
pub open spec fn literal_of(b: Seq<u8>) -> Seq<u8> {
    rust_literal(decode_utf8(b))
}

/// Appends a Rust string literal holding a name.
fn push_name_literal(out: &mut CodeBuf, s: &String)
    requires
        old(out).wf(),
    ensures
        final(out).wf(),
        final(out).text() == old(out).text() + literal_of(str_text(*s)),
{
    proof {
        encode_utf8_decode_utf8(s@);
    }
    push_rust_literal(out, s.as_str());
}

// ---- Serialize ----

/// The statements that write one field of a struct, reached through `self_expr`.
pub open spec fn ser_field_stmt(f: FieldSpec, self_expr: Seq<u8>) -> Seq<u8> {
    "__json.member_key(".spec_bytes() + literal_of(f.json) + ")?; ::nanojson::Serialize::serialize(&".spec_bytes()
        + self_expr + ".".spec_bytes() + f.name + ", __json)?;".spec_bytes()
}

/// The statements that write the fields, in order.
pub open spec fn ser_field_stmts(fs: Seq<FieldSpec>, self_expr: Seq<u8>) -> Seq<u8>
    decreases fs.len(),
{
    if fs.len() == 0 {
        Seq::empty()
    } else {
        ser_field_stmts(fs.drop_last(), self_expr) + ser_field_stmt(fs.last(), self_expr)
    }
}

/// The statements that write a struct as an object of its fields.
pub open spec fn ser_fields_text(fs: Seq<FieldSpec>, self_expr: Seq<u8>) -> Seq<u8> {
    "__json.object_begin()?;".spec_bytes() + ser_field_stmts(fs, self_expr) + "__json.object_end()?;".spec_bytes()
}

/// Writes the statements that write one field of a struct.
fn push_ser_field_stmt(out: &mut CodeBuf, f: &ParsedField, self_expr: &str)
    requires
        old(out).wf(),
    ensures
        final(out).wf(),
        final(out).text() == old(out).text() + ser_field_stmt(f@, self_expr.spec_bytes()),
{
    let ghost start = out.text();
    out.push("__json.member_key(");
    push_name_literal(out, &f.json_name);
    out.push(")?; ::nanojson::Serialize::serialize(&");
    out.push(self_expr);
    out.push(".");
    out.push(f.name.as_str());
    out.push(", __json)?;");
    assert(out.text() =~= start + ser_field_stmt(f@, self_expr.spec_bytes()));
}

/// Writes the statements that serialize a struct's fields.
#[verifier::spinoff_prover]
#[verifier::rlimit(50)]
pub fn gen_serialize_fields(out: &mut CodeBuf, fields: &Vec<ParsedField>, self_expr: &str)
    requires
        old(out).wf(),
    ensures
        final(out).wf(),
        final(out).text() == old(out).text() + ser_fields_text(fields_view(fields@), self_expr.spec_bytes()),
{
    let ghost start = out.text();
    let ghost fs = fields_view(fields@);
    let ghost se = self_expr.spec_bytes();
    out.push("__json.object_begin()?;");
    let mut i: usize = 0;
    assert(fs.take(0) =~= Seq::<FieldSpec>::empty());
    while i < fields.len()
        invariant
            i <= fields.len(),
            fs == fields_view(fields@),
            se == self_expr.spec_bytes(),
            out.wf(),
            out.text() == start + "__json.object_begin()?;".spec_bytes() + ser_field_stmts(fs.take(i as int), se),
        decreases fields.len() - i,
    {
        let f = &fields[i];
        push_ser_field_stmt(out, f, self_expr);
        assert(fs.take(i + 1).drop_last() =~= fs.take(i as int));
        assert(fs[i as int] == f@);
        i = i + 1;
        assert(out.text() =~= start + "__json.object_begin()?;".spec_bytes() + ser_field_stmts(fs.take(i as int), se));
    }
    assert(fs.take(i as int) =~= fs);
    out.push("__json.object_end()?;");
    assert(out.text() =~= start + ser_fields_text(fs, se));
}

/// Every variant is a unit variant.
pub open spec fn all_unit(vs: Seq<VariantSpec>) -> bool {
    forall|i: int| 0 <= i < vs.len() ==> #[trigger] vs[i].fields is None
}

/// Whether every variant is a unit variant.
#[verifier::spinoff_prover]
#[verifier::rlimit(50)]
fn variants_all_unit(variants: &Vec<ParsedVariant>) -> (r: bool)
    ensures
        r == all_unit(variants_view(variants@)),
{
    let mut i: usize = 0;
    while i < variants.len()
        invariant
            i <= variants.len(),
            forall|k: int| 0 <= k < i ==> #[trigger] variants_view(variants@)[k].fields is None,
        decreases variants.len() - i,
    {
        match &variants[i].fields {
            VariantFields::Unit => {},
            VariantFields::Named(_) => {
                assert(variants_view(variants@)[i as int].fields is Some);
                return false;
            },
        }
        i = i + 1;
    }
    true
}

/// The names of the fields, each followed by `, ` (a pattern that binds them).
pub open spec fn pattern_fields(fs: Seq<FieldSpec>) -> Seq<u8>
    decreases fs.len(),
{
    if fs.len() == 0 {
        Seq::empty()
    } else {
        pattern_fields(fs.drop_last()) + fs.last().name + ", ".spec_bytes()
    }
}

/// The statements that write the bound fields of a variant, in order.
pub open spec fn variant_field_stmts(fs: Seq<FieldSpec>) -> Seq<u8>
    decreases fs.len(),
{
    if fs.len() == 0 {
        Seq::empty()
    } else {
        variant_field_stmts(fs.drop_last()) + variant_field_stmt(fs.last())
    }
}

/// The statements that write one bound field of a variant.
pub open spec fn variant_field_stmt(f: FieldSpec) -> Seq<u8> {
    "__json.member_key(".spec_bytes() + literal_of(f.json) + ")?; ::nanojson::Serialize::serialize(".spec_bytes()
        + f.name + ", __json)?;".spec_bytes()
}

/// Writes the statements that write one bound field of a variant.
fn push_variant_field_stmt(out: &mut CodeBuf, f: &ParsedField)
    requires
        old(out).wf(),
    ensures
        final(out).wf(),
        final(out).text() == old(out).text() + variant_field_stmt(f@),
{
    let ghost start = out.text();
    out.push("__json.member_key(");
    push_name_literal(out, &f.json_name);
    out.push(")?; ::nanojson::Serialize::serialize(");
    out.push(f.name.as_str());
    out.push(", __json)?;");
    assert(out.text() =~= start + variant_field_stmt(f@));
}

/// The match arm that writes one variant: a unit variant of an enum of unit variants as
/// its name in a string, any other as an object with its name as the only key.
pub open spec fn ser_arm(v: VariantSpec, unit_enum: bool) -> Seq<u8> {
    match v.fields {
        None => if unit_enum {
            "Self::".spec_bytes() + v.name + " => { __json.string(".spec_bytes() + literal_of(v.json)
                + ")?; }".spec_bytes()
        } else {
            "Self::".spec_bytes() + v.name + " => { __json.object_begin()?; __json.member_key(".spec_bytes()
                + literal_of(v.json) + ")?; __json.null()?; __json.object_end()?; }".spec_bytes()
        },
        Some(fs) => "Self::".spec_bytes() + v.name + " { ".spec_bytes() + pattern_fields(fs)
            + " } => { ".spec_bytes() + "__json.object_begin()?;".spec_bytes() + "__json.member_key(".spec_bytes()
            + literal_of(v.json) + ")?;".spec_bytes() + "__json.object_begin()?;".spec_bytes()
            + variant_field_stmts(fs) + "__json.object_end()?;".spec_bytes() + "__json.object_end()?;".spec_bytes()
            + " }".spec_bytes(),
    }
}

/// The match arms for the variants, in order.
pub open spec fn ser_arms(vs: Seq<VariantSpec>, unit_enum: bool) -> Seq<u8>
    decreases vs.len(),
{
    if vs.len() == 0 {
        Seq::empty()
    } else {
        ser_arms(vs.drop_last(), unit_enum) + ser_arm(vs.last(), unit_enum)
    }
}

/// The `match` that serializes an enum.
pub open spec fn ser_enum_text(vs: Seq<VariantSpec>) -> Seq<u8> {
    "match self { ".spec_bytes() + ser_arms(vs, all_unit(vs)) + " }".spec_bytes()
}

/// Writes the pattern and statements of one variant with named fields.
#[verifier::spinoff_prover]
#[verifier::rlimit(50)]
fn push_named_variant(out: &mut CodeBuf, v: &ParsedVariant, fields: &Vec<ParsedField>)
    requires
        old(out).wf(),
        v.fields == VariantFields::Named(*fields),
    ensures
        final(out).wf(),
        final(out).text() == old(out).text() + ser_arm(v@, false),
{
    let ghost start = out.text();
    let ghost fs = fields_view(fields@);
    out.push("Self::");
    out.push(v.name.as_str());
    out.push(" { ");
    let mut i: usize = 0;
    assert(fs.take(0) =~= Seq::<FieldSpec>::empty());
    let ghost head = out.text();
    while i < fields.len()
        invariant
            i <= fields.len(),
            fs == fields_view(fields@),
            out.wf(),
            out.text() == head + pattern_fields(fs.take(i as int)),
        decreases fields.len() - i,
    {
        out.push(fields[i].name.as_str());
        out.push(", ");
        assert(fs.take(i + 1).drop_last() =~= fs.take(i as int));
        assert(fs[i as int] == fields[i as int]@);
        i = i + 1;
        assert(out.text() =~= head + pattern_fields(fs.take(i as int)));
    }
    assert(fs.take(i as int) =~= fs);
    out.push(" } => { ");
    out.push("__json.object_begin()?;");
    out.push("__json.member_key(");
    push_name_literal(out, &v.json_name);
    out.push(")?;");
    out.push("__json.object_begin()?;");
    let ghost mid = out.text();
    let mut j: usize = 0;
    assert(fs.take(0) =~= Seq::<FieldSpec>::empty());
    while j < fields.len()
        invariant
            j <= fields.len(),
            fs == fields_view(fields@),
            out.wf(),
            out.text() == mid + variant_field_stmts(fs.take(j as int)),
        decreases fields.len() - j,
    {
        let f = &fields[j];
        push_variant_field_stmt(out, f);
        assert(fs.take(j + 1).drop_last() =~= fs.take(j as int));
        assert(fs[j as int] == f@);
        j = j + 1;
        assert(out.text() =~= mid + variant_field_stmts(fs.take(j as int)));
    }
    assert(fs.take(j as int) =~= fs);
    out.push("__json.object_end()?;");
    out.push("__json.object_end()?;");
    out.push(" }");
    assert(out.text() =~= start + ser_arm(v@, false));
}

/// Writes the match arm of a unit variant.
#[verifier::spinoff_prover]
#[verifier::rlimit(50)]
fn push_unit_arm(out: &mut CodeBuf, v: &ParsedVariant, unit_enum: bool)
    requires
        old(out).wf(),
        v.fields == VariantFields::Unit,
    ensures
        final(out).wf(),
        final(out).text() == old(out).text() + ser_arm(v@, unit_enum),
{
    let ghost start = out.text();
    if unit_enum {
        out.push("Self::");
        out.push(v.name.as_str());
        out.push(" => { __json.string(");
        push_name_literal(out, &v.json_name);
        out.push(")?; }");
    } else {
        out.push("Self::");
        out.push(v.name.as_str());
        out.push(" => { __json.object_begin()?; __json.member_key(");
        push_name_literal(out, &v.json_name);
        out.push(")?; __json.null()?; __json.object_end()?; }");
    }
    assert(out.text() =~= start + ser_arm(v@, unit_enum));
}

/// Writes the `match` that serializes an enum.
#[verifier::spinoff_prover]
#[verifier::rlimit(50)]
pub fn gen_serialize_enum(out: &mut CodeBuf, variants: &Vec<ParsedVariant>)
    requires
        old(out).wf(),
    ensures
        final(out).wf(),
        final(out).text() == old(out).text() + ser_enum_text(variants_view(variants@)),
{
    let ghost start = out.text();
    let ghost vs = variants_view(variants@);
    let unit_enum = variants_all_unit(variants);
    out.push("match self { ");
    let ghost head = out.text();
    let mut i: usize = 0;
    assert(vs.take(0) =~= Seq::<VariantSpec>::empty());
    while i < variants.len()
        invariant
            i <= variants.len(),
            vs == variants_view(variants@),
            unit_enum == all_unit(vs),
            out.wf(),
            out.text() == head + ser_arms(vs.take(i as int), unit_enum),
        decreases variants.len() - i,
    {
        let v = &variants[i];
        let ghost before = out.text();
        match &v.fields {
            VariantFields::Unit => {
                push_unit_arm(out, v, unit_enum);
            },
            VariantFields::Named(fields) => {
                push_named_variant(out, v, fields);
            },
        }
        assert(out.text() == before + ser_arm(v@, unit_enum));
        assert(vs.take(i + 1).drop_last() =~= vs.take(i as int));
        assert(vs[i as int] == v@);
        i = i + 1;
        assert(out.text() =~= head + ser_arms(vs.take(i as int), unit_enum));
    }
    assert(vs.take(i as int) =~= vs);
    out.push(" }");
    assert(out.text() =~= start + ser_enum_text(vs));
}

/// A struct's or enum's generic parameters in angle brackets (nothing when it has none).
pub open spec fn generics_text(g: Seq<TokenTree>) -> Seq<u8> {
    if g.len() == 0 {
        Seq::empty()
    } else {
        "<".spec_bytes() + stream_text(g, g.len()) + ">".spec_bytes()
    }
}

/// Writes the generic parameters in angle brackets.
fn push_generics(out: &mut CodeBuf, g: &Vec<TokenTree>)
    requires
        old(out).wf(),
    ensures
        final(out).wf(),
        final(out).text() == old(out).text() + generics_text(g@),
{
    let ghost start = out.text();
    if g.len() > 0 {
        out.push("<");
        push_stream(out, g);
        out.push(">");
    }
    assert(out.text() =~= start + generics_text(g@));
}

/// The statements that serialize an item.
pub open spec fn serialize_body(it: ItemSpec) -> Seq<u8> {
    match it.kind {
        KindSpec::Struct(fs) => ser_fields_text(fs, "self".spec_bytes()),
        KindSpec::Enum(vs) => ser_enum_text(vs),
    }
}

/// The source of the `Serialize` impl for an item.
pub open spec fn serialize_impl(it: ItemSpec) -> Seq<u8> {
    let gp = generics_text(it.generics);
    "\n        impl".spec_bytes() + gp + " ::nanojson::Serialize for ".spec_bytes() + it.name + gp
        + " {\n            fn serialize<__W: ::nanojson::Write>(\n                &self,\n                __json: &mut ::nanojson::Serializer<__W, 32>,\n            ) -> ::core::result::Result<(), ::nanojson::SerializeError<__W::Error>> {\n                ".spec_bytes()
        + serialize_body(it)
        + "\n                ::core::result::Result::Ok(())\n            }\n        }\n        ".spec_bytes()
}

/// The source of the `Serialize` impl for an item.
#[verifier::spinoff_prover]
#[verifier::rlimit(50)]
pub fn gen_serialize(item: &ParsedItem) -> (r: String)
    ensures
        str_text(r) == serialize_impl(item@),
{
    let mut out = CodeBuf::new();
    out.push("\n        impl");
    push_generics(&mut out, &item.generics);
    out.push(" ::nanojson::Serialize for ");
    out.push(item.name.as_str());
    push_generics(&mut out, &item.generics);
    out.push(
        " {\n            fn serialize<__W: ::nanojson::Write>(\n                &self,\n                __json: &mut ::nanojson::Serializer<__W, 32>,\n            ) -> ::core::result::Result<(), ::nanojson::SerializeError<__W::Error>> {\n                ",
    );
    match &item.kind {
        ItemKind::Struct(fields) => gen_serialize_fields(&mut out, fields, "self"),
        ItemKind::Enum(variants) => gen_serialize_enum(&mut out, variants),
    }
    out.push("\n                ::core::result::Result::Ok(())\n            }\n        }\n        ");
    assert(out.text() =~= serialize_impl(item@));
    out.into_string()
}

// ---- Deserialize ----

/// The declaration of a field's slot, `None` until its key is read.
pub open spec fn field_decl(f: FieldSpec) -> Seq<u8> {
    "let mut ".spec_bytes() + f.name + ": ::core::option::Option<".spec_bytes()
        + stream_text(f.ty, f.ty.len()) + "> = ::core::option::Option::None;".spec_bytes()
}

/// The match arm that reads a field's value when its key comes.
pub open spec fn field_arm(f: FieldSpec) -> Seq<u8> {
    literal_of(f.json) + " => { ".spec_bytes() + f.name
        + " = ::core::option::Option::Some(::nanojson::Deserialize::deserialize(__json)?); }".spec_bytes()
}

/// The initializer of a field from its slot: its default when it is missing and has one,
/// else a `MissingField` error.
pub open spec fn field_init(f: FieldSpec) -> Seq<u8> {
    if f.default {
        f.name + ": ".spec_bytes() + f.name + ".unwrap_or(::core::default::Default::default()),".spec_bytes()
    } else {
        f.name + ": ".spec_bytes() + f.name
            + ".ok_or_else(|| ::nanojson::ParseError { kind: ::nanojson::ParseErrorKind::MissingField { field: ".spec_bytes()
            + literal_of(f.json) + " }, offset: __json.error_offset() })?,".spec_bytes()
    }
}

/// One of the three per-field texts.
pub enum FieldPart {
    Decl,
    Arm,
    Init,
}

/// The text of one part for a field.
pub open spec fn field_part(f: FieldSpec, part: FieldPart) -> Seq<u8> {
    match part {
        FieldPart::Decl => field_decl(f),
        FieldPart::Arm => field_arm(f),
        FieldPart::Init => field_init(f),
    }
}

/// The text of one part for each field, in order.
pub open spec fn field_parts(fs: Seq<FieldSpec>, part: FieldPart) -> Seq<u8>
    decreases fs.len(),
{
    if fs.len() == 0 {
        Seq::empty()
    } else {
        field_parts(fs.drop_last(), part) + field_part(fs.last(), part)
    }
}

/// Writes one part for a field.
#[verifier::spinoff_prover]
#[verifier::rlimit(50)]
fn push_field_part(out: &mut CodeBuf, f: &ParsedField, part: &FieldPart)
    requires
        old(out).wf(),
    ensures
        final(out).wf(),
        final(out).text() == old(out).text() + field_part(f@, *part),
{
    let ghost start = out.text();
    match part {
        FieldPart::Decl => {
            out.push("let mut ");
            out.push(f.name.as_str());
            out.push(": ::core::option::Option<");
            push_stream(out, &f.ty);
            out.push("> = ::core::option::Option::None;");
        },
        FieldPart::Arm => {
            push_name_literal(out, &f.json_name);
            out.push(" => { ");
            out.push(f.name.as_str());
            out.push(" = ::core::option::Option::Some(::nanojson::Deserialize::deserialize(__json)?); }");
        },
        FieldPart::Init => {
            if f.has_default {
                out.push(f.name.as_str());
                out.push(": ");
                out.push(f.name.as_str());
                out.push(".unwrap_or(::core::default::Default::default()),");
            } else {
                out.push(f.name.as_str());
                out.push(": ");
                out.push(f.name.as_str());
                out.push(
                    ".ok_or_else(|| ::nanojson::ParseError { kind: ::nanojson::ParseErrorKind::MissingField { field: ",
                );
                push_name_literal(out, &f.json_name);
                out.push(" }, offset: __json.error_offset() })?,");
            }
        },
    }
    assert(out.text() =~= start + field_part(f@, *part));
}

/// Writes one part for each field, in order.
#[verifier::spinoff_prover]
#[verifier::rlimit(50)]
fn push_field_parts(out: &mut CodeBuf, fields: &Vec<ParsedField>, part: &FieldPart)
    requires
        old(out).wf(),
    ensures
        final(out).wf(),
        final(out).text() == old(out).text() + field_parts(fields_view(fields@), *part),
{
    let ghost start = out.text();
    let ghost fs = fields_view(fields@);
    let mut i: usize = 0;
    assert(fs.take(0) =~= Seq::<FieldSpec>::empty());
    while i < fields.len()
        invariant
            i <= fields.len(),
            fs == fields_view(fields@),
            out.wf(),
            out.text() == start + field_parts(fs.take(i as int), *part),
        decreases fields.len() - i,
    {
        push_field_part(out, &fields[i], part);
        assert(fs.take(i + 1).drop_last() =~= fs.take(i as int));
        assert(fs[i as int] == fields[i as int]@);
        i = i + 1;
        assert(out.text() =~= start + field_parts(fs.take(i as int), *part));
    }
    assert(fs.take(i as int) =~= fs);
}

/// The statements that read an object's members into the fields' slots.
pub open spec fn fields_reading(fs: Seq<FieldSpec>) -> Seq<u8> {
    field_parts(fs, FieldPart::Decl) + "__json.object_begin()?;".spec_bytes()
        + "while let ::core::option::Option::Some(__key) = __json.object_member()? {".spec_bytes()
        + "match __key {".spec_bytes() + field_parts(fs, FieldPart::Arm)
        + "_ => { return ::core::result::Result::Err(__json.unknown_field()); }".spec_bytes()
        + "}".spec_bytes() + "}".spec_bytes() + "__json.object_end()?;".spec_bytes()
}

/// Writes the statements that read an object's members into the fields' slots.
#[verifier::spinoff_prover]
#[verifier::rlimit(50)]
fn push_fields_reading(out: &mut CodeBuf, fields: &Vec<ParsedField>)
    requires
        old(out).wf(),
    ensures
        final(out).wf(),
        final(out).text() == old(out).text() + fields_reading(fields_view(fields@)),
{
    let ghost start = out.text();
    push_field_parts(out, fields, &FieldPart::Decl);
    out.push("__json.object_begin()?;");
    out.push("while let ::core::option::Option::Some(__key) = __json.object_member()? {");
    out.push("match __key {");
    push_field_parts(out, fields, &FieldPart::Arm);
    out.push("_ => { return ::core::result::Result::Err(__json.unknown_field()); }");
    out.push("}");
    out.push("}");
    out.push("__json.object_end()?;");
    assert(out.text() =~= start + fields_reading(fields_view(fields@)));
}

/// The statements that deserialize a struct named `name`.
pub open spec fn deser_struct_text(name: Seq<u8>, fs: Seq<FieldSpec>) -> Seq<u8> {
    fields_reading(fs) + "::core::result::Result::Ok(".spec_bytes() + name + " {".spec_bytes()
        + field_parts(fs, FieldPart::Init) + "})".spec_bytes()
}

/// Writes the statements that deserialize a struct.
#[verifier::spinoff_prover]
#[verifier::rlimit(50)]
pub fn gen_deserialize_struct(out: &mut CodeBuf, name: &String, fields: &Vec<ParsedField>)
    requires
        old(out).wf(),
    ensures
        final(out).wf(),
        final(out).text() == old(out).text() + deser_struct_text(str_text(*name), fields_view(fields@)),
{
    let ghost start = out.text();
    push_fields_reading(out, fields);
    out.push("::core::result::Result::Ok(");
    out.push(name.as_str());
    out.push(" {");
    push_field_parts(out, fields, &FieldPart::Init);
    out.push("})");
    assert(out.text() =~= start + deser_struct_text(str_text(*name), fields_view(fields@)));
}

/// The block that deserializes variant `vname` of enum `ename` from its fields' object.
pub open spec fn deser_struct_variant_text(ename: Seq<u8>, vname: Seq<u8>, fs: Seq<FieldSpec>) -> Seq<u8> {
    fields_reading(fs) + ename + "::".spec_bytes() + vname + " {".spec_bytes() + field_parts(
        fs,
        FieldPart::Init,
    ) + "}".spec_bytes()
}

/// Writes the statements that deserialize a variant with named fields.
#[verifier::spinoff_prover]
#[verifier::rlimit(50)]
pub fn gen_deserialize_struct_variant(
    out: &mut CodeBuf,
    enum_name: &String,
    variant_name: &String,
    fields: &Vec<ParsedField>,
)
    requires
        old(out).wf(),
    ensures
        final(out).wf(),
        final(out).text() == old(out).text() + deser_struct_variant_text(
            str_text(*enum_name),
            str_text(*variant_name),
            fields_view(fields@),
        ),
{
    let ghost start = out.text();
    push_fields_reading(out, fields);
    out.push(enum_name.as_str());
    out.push("::");
    out.push(variant_name.as_str());
    out.push(" {");
    push_field_parts(out, fields, &FieldPart::Init);
    out.push("}");
    assert(out.text() =~= start + deser_struct_variant_text(
        str_text(*enum_name),
        str_text(*variant_name),
        fields_view(fields@),
    ));
}

/// The match arm that reads a variant: for an enum of unit variants, from its name in a
/// string; else from the value under its name in a one-key object.
pub open spec fn deser_arm(ename: Seq<u8>, v: VariantSpec, unit_enum: bool) -> Seq<u8> {
    if unit_enum {
        literal_of(v.json) + " => ::core::result::Result::Ok(".spec_bytes() + ename + "::".spec_bytes()
            + v.name + "),".spec_bytes()
    } else {
        let inner = match v.fields {
            None => "{ __json.null()?; ".spec_bytes() + ename + "::".spec_bytes() + v.name + " }".spec_bytes(),
            Some(fs) => "{ ".spec_bytes() + deser_struct_variant_text(ename, v.name, fs) + " }".spec_bytes(),
        };
        literal_of(v.json) + " => ".spec_bytes() + inner + ",".spec_bytes()
    }
}

/// The match arms for the variants, in order.
pub open spec fn deser_arms(ename: Seq<u8>, vs: Seq<VariantSpec>, unit_enum: bool) -> Seq<u8>
    decreases vs.len(),
{
    if vs.len() == 0 {
        Seq::empty()
    } else {
        deser_arms(ename, vs.drop_last(), unit_enum) + deser_arm(ename, vs.last(), unit_enum)
    }
}

/// Writes the match arm that reads one variant.
#[verifier::spinoff_prover]
#[verifier::rlimit(50)]
fn push_deser_arm(out: &mut CodeBuf, enum_name: &String, v: &ParsedVariant, unit_enum: bool)
    requires
        old(out).wf(),
    ensures
        final(out).wf(),
        final(out).text() == old(out).text() + deser_arm(str_text(*enum_name), v@, unit_enum),
{
    let ghost start = out.text();
    if unit_enum {
        push_name_literal(out, &v.json_name);
        out.push(" => ::core::result::Result::Ok(");
        out.push(enum_name.as_str());
        out.push("::");
        out.push(v.name.as_str());
        out.push("),");
    } else {
        push_name_literal(out, &v.json_name);
        out.push(" => ");
        match &v.fields {
            VariantFields::Unit => {
                out.push("{ __json.null()?; ");
                out.push(enum_name.as_str());
                out.push("::");
                out.push(v.name.as_str());
                out.push(" }");
            },
            VariantFields::Named(fields) => {
                out.push("{ ");
                gen_deserialize_struct_variant(out, enum_name, &v.name, fields);
                out.push(" }");
            },
        }
        out.push(",");
    }
    assert(out.text() =~= start + deser_arm(str_text(*enum_name), v@, unit_enum));
}

/// The statements that deserialize an enum named `name`.
pub open spec fn deser_enum_text(name: Seq<u8>, vs: Seq<VariantSpec>) -> Seq<u8> {
    if all_unit(vs) {
        "let __tag = __json.string()?;".spec_bytes() + "match __tag {".spec_bytes() + deser_arms(name, vs, true)
            + "_ => ::core::result::Result::Err(::nanojson::ParseError { kind: ::nanojson::ParseErrorKind::UnknownField, offset: __json.error_offset() }),".spec_bytes()
            + "}".spec_bytes()
    } else {
        "__json.object_begin()?;".spec_bytes()
            + "let __result = if let ::core::option::Option::Some(__tag) = __json.object_member()? {".spec_bytes()
            + "match __tag {".spec_bytes() + deser_arms(name, vs, false)
            + "_ => return ::core::result::Result::Err(::nanojson::ParseError { kind: ::nanojson::ParseErrorKind::UnknownField, offset: __json.error_offset() }),".spec_bytes()
            + "}".spec_bytes() + "} else {".spec_bytes()
            + "return ::core::result::Result::Err(::nanojson::ParseError { kind: ::nanojson::ParseErrorKind::MissingField { field: \"(variant)\" }, offset: __json.error_offset() });".spec_bytes()
            + "};".spec_bytes() + "__json.object_end()?;".spec_bytes()
            + "::core::result::Result::Ok(__result)".spec_bytes()
    }
}

/// Writes the match arms for the variants, in order.
#[verifier::spinoff_prover]
#[verifier::rlimit(50)]
fn push_deser_arms(out: &mut CodeBuf, name: &String, variants: &Vec<ParsedVariant>, unit_enum: bool)
    requires
        old(out).wf(),
    ensures
        final(out).wf(),
        final(out).text() == old(out).text() + deser_arms(str_text(*name), variants_view(variants@), unit_enum),
{
    let ghost start = out.text();
    let ghost vs = variants_view(variants@);
    let mut i: usize = 0;
    assert(vs.take(0) =~= Seq::<VariantSpec>::empty());
    while i < variants.len()
        invariant
            i <= variants.len(),
            vs == variants_view(variants@),
            out.wf(),
            out.text() == start + deser_arms(str_text(*name), vs.take(i as int), unit_enum),
        decreases variants.len() - i,
    {
        push_deser_arm(out, name, &variants[i], unit_enum);
        assert(vs.take(i + 1).drop_last() =~= vs.take(i as int));
        assert(vs[i as int] == variants[i as int]@);
        i = i + 1;
        assert(out.text() =~= start + deser_arms(str_text(*name), vs.take(i as int), unit_enum));
    }
    assert(vs.take(i as int) =~= vs);
}

/// Writes the statements that deserialize an enum.
#[verifier::spinoff_prover]
#[verifier::rlimit(50)]
pub fn gen_deserialize_enum(out: &mut CodeBuf, name: &String, variants: &Vec<ParsedVariant>)
    requires
        old(out).wf(),
    ensures
        final(out).wf(),
        final(out).text() == old(out).text() + deser_enum_text(str_text(*name), variants_view(variants@)),
{
    let ghost start = out.text();
    if variants_all_unit(variants) {
        out.push("let __tag = __json.string()?;");
        out.push("match __tag {");
        push_deser_arms(out, name, variants, true);
        out.push(
            "_ => ::core::result::Result::Err(::nanojson::ParseError { kind: ::nanojson::ParseErrorKind::UnknownField, offset: __json.error_offset() }),",
        );
        out.push("}");
    } else {
        out.push("__json.object_begin()?;");
        out.push("let __result = if let ::core::option::Option::Some(__tag) = __json.object_member()? {");
        out.push("match __tag {");
        push_deser_arms(out, name, variants, false);
        out.push(
            "_ => return ::core::result::Result::Err(::nanojson::ParseError { kind: ::nanojson::ParseErrorKind::UnknownField, offset: __json.error_offset() }),",
        );
        out.push("}");
        out.push("} else {");
        out.push(
            "return ::core::result::Result::Err(::nanojson::ParseError { kind: ::nanojson::ParseErrorKind::MissingField { field: \"(variant)\" }, offset: __json.error_offset() });",
        );
        out.push("};");
        out.push("__json.object_end()?;");
        out.push("::core::result::Result::Ok(__result)");
    }
    assert(out.text() =~= start + deser_enum_text(str_text(*name), variants_view(variants@)));
}

/// `t` is a `'` joined to the token after it.
pub open spec fn is_lifetime_quote(t: TokenTree) -> bool {
    t matches TokenTree::Punct { ch, joint } && ch == '\'' && joint
}

/// The names (without `'`) of the lifetimes among generic parameters: an identifier right
/// after a `'` that is joined to it.
pub open spec fn lifetimes(g: Seq<TokenTree>) -> Seq<Seq<u8>>
    decreases g.len(),
{
    if g.len() == 0 {
        Seq::empty()
    } else if g.len() >= 2 && is_lifetime_quote(g[0]) && g[1] is Ident {
        let name = match g[1] {
            TokenTree::Ident(s) => str_text(s),
            _ => Seq::empty(),
        };
        seq![name] + lifetimes(g.skip(2))
    } else {
        lifetimes(g.skip(1))
    }
}

/// The bounds `'__buf: 'lt, ` for the lifetimes, in order.
pub open spec fn lifetime_bounds(lts: Seq<Seq<u8>>) -> Seq<u8>
    decreases lts.len(),
{
    if lts.len() == 0 {
        Seq::empty()
    } else {
        "'__buf: '".spec_bytes() + lts[0] + ", ".spec_bytes() + lifetime_bounds(lts.skip(1))
    }
}

/// The `where` clause that lets the scratch buffer outlive the item's lifetimes
/// (nothing when it has none).
pub open spec fn where_clause(g: Seq<TokenTree>) -> Seq<u8> {
    if lifetimes(g).len() == 0 {
        Seq::empty()
    } else {
        "where ".spec_bytes() + lifetime_bounds(lifetimes(g))
    }
}

/// The lifetime names among generic parameters.
#[verifier::spinoff_prover]
#[verifier::rlimit(50)]
pub fn lifetime_params(g: &Vec<TokenTree>) -> (r: Vec<String>)
    ensures
        r@.map_values(|s: String| str_text(s)) == lifetimes(g@),
{
    let mut out: Vec<String> = Vec::new();
    let mut i: usize = 0;
    assert(g@.skip(0) =~= g@);
    assert(out@.map_values(|s: String| str_text(s)) + lifetimes(g@.skip(0)) =~= lifetimes(g@));
    while i < g.len()
        invariant
            i <= g.len(),
            out@.map_values(|s: String| str_text(s)) + lifetimes(g@.skip(i as int)) == lifetimes(g@),
        decreases g.len() - i,
    {
        let ghost rest = g@.skip(i as int);
        let ghost before = out@;
        let quote = match &g[i] {
            TokenTree::Punct { ch, joint } => *ch == '\'' && *joint,
            _ => false,
        };
        if quote && i + 1 < g.len() {
            match &g[i + 1] {
                TokenTree::Ident(name) => {
                    out.push(name.clone());
                    assert(rest[0] == g@[i as int] && rest[1] == g@[i + 1]);
                    assert(rest.skip(2) =~= g@.skip(i + 2));
                    assert(out@.map_values(|s: String| str_text(s)) =~= before.map_values(|s: String| str_text(s)) + seq![str_text(*name)]);
                    i = i + 2;
                    assert(out@.map_values(|s: String| str_text(s)) + lifetimes(g@.skip(i as int)) =~= lifetimes(g@));
                    continue;
                },
                _ => {},
            }
        }
        assert(rest[0] == g@[i as int]);
        assert(rest.len() >= 2 ==> rest[1] == g@[i + 1]);
        assert(rest.skip(1) =~= g@.skip(i + 1));
        i = i + 1;
    }
    out
}

/// Writes the `where` clause for the item's lifetimes.
#[verifier::spinoff_prover]
#[verifier::rlimit(50)]
fn push_where_clause(out: &mut CodeBuf, g: &Vec<TokenTree>)
    requires
        old(out).wf(),
    ensures
        final(out).wf(),
        final(out).text() == old(out).text() + where_clause(g@),
{
    let ghost start = out.text();
    let lts = lifetime_params(g);
    let ghost ls = lts@.map_values(|s: String| str_text(s));
    if lts.len() > 0 {
        out.push("where ");
        let ghost head = out.text();
        let mut i: usize = 0;
        assert(ls.skip(0) =~= ls);
        assert(head + lifetime_bounds(Seq::<Seq<u8>>::empty()) =~= head);
        while i < lts.len()
            invariant
                i <= lts.len(),
                ls == lts@.map_values(|s: String| str_text(s)),
                out.wf(),
                out.text() + lifetime_bounds(ls.skip(i as int)) == head + lifetime_bounds(ls),
            decreases lts.len() - i,
        {
            let ghost before = out.text();
            out.push("'__buf: '");
            out.push(lts[i].as_str());
            out.push(", ");
            assert(ls.skip(i as int)[0] == str_text(lts[i as int]));
            assert(ls.skip(i as int).skip(1) =~= ls.skip(i + 1));
            i = i + 1;
            assert(out.text() + lifetime_bounds(ls.skip(i as int)) =~= before + lifetime_bounds(ls.skip(i - 1)));
        }
        assert(ls.skip(i as int) =~= Seq::<Seq<u8>>::empty());
        assert(out.text() =~= head + lifetime_bounds(ls));
    }
    assert(out.text() =~= start + where_clause(g@));
}

/// The statements that deserialize an item.
pub open spec fn deserialize_body(it: ItemSpec) -> Seq<u8> {
    match it.kind {
        KindSpec::Struct(fs) => deser_struct_text(it.name, fs),
        KindSpec::Enum(vs) => deser_enum_text(it.name, vs),
    }
}

/// The item's generic parameters after a comma (nothing when it has none).
pub open spec fn comma_generics(g: Seq<TokenTree>) -> Seq<u8> {
    if g.len() == 0 {
        Seq::empty()
    } else {
        ", ".spec_bytes() + stream_text(g, g.len())
    }
}

/// The source of the `Deserialize` impl for an item.
pub open spec fn deserialize_impl(it: ItemSpec) -> Seq<u8> {
    "\n        impl<'__src, '__buf".spec_bytes() + comma_generics(it.generics)
        + "> ::nanojson::Deserialize<'__src, '__buf>\n            for ".spec_bytes() + it.name
        + generics_text(it.generics) + "\n        ".spec_bytes() + where_clause(it.generics)
        + "\n        {\n            fn deserialize(\n                __json: &mut ::nanojson::Parser<'__src, '__buf>,\n                ) -> ::core::result::Result<Self, ::nanojson::ParseError> {\n                ".spec_bytes()
        + deserialize_body(it) + "\n            }\n        }\n        ".spec_bytes()
}

/// The source of the `Deserialize` impl for an item.
#[verifier::spinoff_prover]
#[verifier::rlimit(50)]
pub fn gen_deserialize(item: &ParsedItem) -> (r: String)
    ensures
        str_text(r) == deserialize_impl(item@),
{
    let mut out = CodeBuf::new();
    out.push("\n        impl<'__src, '__buf");
    if item.generics.len() > 0 {
        out.push(", ");
        push_stream(&mut out, &item.generics);
    }
    out.push("> ::nanojson::Deserialize<'__src, '__buf>\n            for ");
    out.push(item.name.as_str());
    push_generics(&mut out, &item.generics);
    out.push("\n        ");
    push_where_clause(&mut out, &item.generics);
    out.push(
        "\n        {\n            fn deserialize(\n                __json: &mut ::nanojson::Parser<'__src, '__buf>,\n                ) -> ::core::result::Result<Self, ::nanojson::ParseError> {\n                ",
    );
    match &item.kind {
        ItemKind::Struct(fields) => gen_deserialize_struct(&mut out, &item.name, fields),
        ItemKind::Enum(variants) => gen_deserialize_enum(&mut out, &item.name, variants),
    }
    out.push("\n            }\n        }\n        ");
    assert(out.text() =~= deserialize_impl(item@));
    out.into_string()
}

} // verus!
