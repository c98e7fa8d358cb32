use nanojson::deserialize::{Deserialize, Parser};
use nanojson::serialize::{Serialize, SerializeError, Serializer};
use nanojson::write::{SliceWriter, Write};
use nanojson::{ParseError, ParseErrorKind};
use nanojson::derive::codegen::{gen_deserialize, gen_serialize};
use nanojson::derive::item::parse_item;
use nanojson::derive::tokens::{Delimiter, TokenTree};

// ============================================================
// ---- Test types: Point, Direction and Shape carry the derive's generated impls; ----
// ---- the others carry hand-written impls of the same shape                     ----
// ============================================================

#[derive(Debug, PartialEq)]
struct Point {
    x: i64,
    y: i64,
}

// The impls below are the derive macros' own output for this type, as generated
// by `gen_serialize` / `gen_deserialize` (checked by `generated_impls_match_the_derive`).
        impl ::nanojson::Serialize for Point {
            fn serialize<__W: ::nanojson::Write>(
                &self,
                __json: &mut ::nanojson::Serializer<__W, 32>,
            ) -> ::core::result::Result<(), ::nanojson::SerializeError<__W::Error>> {
                __json.object_begin()?;__json.member_key("x")?; ::nanojson::Serialize::serialize(&self.x, __json)?;__json.member_key("y")?; ::nanojson::Serialize::serialize(&self.y, __json)?;__json.object_end()?;
                ::core::result::Result::Ok(())
            }
        }
        

        impl<'__src, '__buf> ::nanojson::Deserialize<'__src, '__buf>
            for Point
        
        {
            fn deserialize(
                __json: &mut ::nanojson::Parser<'__src, '__buf>,
                ) -> ::core::result::Result<Self, ::nanojson::ParseError> {
                let mut x: ::core::option::Option<i64> = ::core::option::Option::None;let mut y: ::core::option::Option<i64> = ::core::option::Option::None;__json.object_begin()?;while let ::core::option::Option::Some(__key) = __json.object_member()? {match __key {"x" => { x = ::core::option::Option::Some(::nanojson::Deserialize::deserialize(__json)?); }"y" => { y = ::core::option::Option::Some(::nanojson::Deserialize::deserialize(__json)?); }_ => { return ::core::result::Result::Err(__json.unknown_field()); }}}__json.object_end()?;::core::result::Result::Ok(Point {x: x.ok_or_else(|| ::nanojson::ParseError { kind: ::nanojson::ParseErrorKind::MissingField { field: "x" }, offset: __json.error_offset() })?,y: y.ok_or_else(|| ::nanojson::ParseError { kind: ::nanojson::ParseErrorKind::MissingField { field: "y" }, offset: __json.error_offset() })?,})
            }
        }
        


fn missing(json: &Parser<'_, '_>, field: &'static str) -> ParseError {
    ParseError { kind: ParseErrorKind::MissingField { field }, offset: json.error_offset() }
}

#[derive(Debug, PartialEq)]
struct Sensor {
    value: i64,
    active: bool,
}

impl Serialize for Sensor {
    fn serialize<W: Write>(&self, json: &mut Serializer<W, 32>) -> Result<(), SerializeError<W::Error>> {
        json.object_begin()?;
        json.member_key("value")?;
        self.value.serialize(json)?;
        json.member_key("active")?;
        self.active.serialize(json)?;
        json.object_end()?;
        Ok(())
    }
}

impl<'s, 'b> Deserialize<'s, 'b> for Sensor {
    fn deserialize(json: &mut Parser<'s, 'b>) -> Result<Self, ParseError> {
        let mut value: Option<i64> = None;
        let mut active: Option<bool> = None;
        json.object_begin()?;
        while let Some(key) = json.object_member()? {
            match key {
                "value" => value = Some(Deserialize::deserialize(json)?),
                "active" => active = Some(Deserialize::deserialize(json)?),
                _ => return Err(json.unknown_field()),
            }
        }
        json.object_end()?;
        Ok(Sensor {
            value: value.ok_or_else(|| missing(json, "value"))?,
            active: active.ok_or_else(|| missing(json, "active"))?,
        })
    }
}

/// The field `value` is renamed to `first_name` in JSON.
#[derive(Debug, PartialEq)]
struct Renamed {
    value: i64,
}

// The impls below are the derive macros' own output for this type, as generated
// by `gen_serialize` / `gen_deserialize` (checked by `generated_impls_match_the_derive`).
        impl ::nanojson::Serialize for Renamed {
            fn serialize<__W: ::nanojson::Write>(
                &self,
                __json: &mut ::nanojson::Serializer<__W, 32>,
            ) -> ::core::result::Result<(), ::nanojson::SerializeError<__W::Error>> {
                __json.object_begin()?;__json.member_key("first_name")?; ::nanojson::Serialize::serialize(&self.value, __json)?;__json.object_end()?;
                ::core::result::Result::Ok(())
            }
        }
        

        impl<'__src, '__buf> ::nanojson::Deserialize<'__src, '__buf>
            for Renamed
        
        {
            fn deserialize(
                __json: &mut ::nanojson::Parser<'__src, '__buf>,
                ) -> ::core::result::Result<Self, ::nanojson::ParseError> {
                let mut value: ::core::option::Option<i64> = ::core::option::Option::None;__json.object_begin()?;while let ::core::option::Option::Some(__key) = __json.object_member()? {match __key {"first_name" => { value = ::core::option::Option::Some(::nanojson::Deserialize::deserialize(__json)?); }_ => { return ::core::result::Result::Err(__json.unknown_field()); }}}__json.object_end()?;::core::result::Result::Ok(Renamed {value: value.ok_or_else(|| ::nanojson::ParseError { kind: ::nanojson::ParseErrorKind::MissingField { field: "first_name" }, offset: __json.error_offset() })?,})
            }
        }
        

// Fields marked `#[nanojson(default)]` take their default when omitted.
#[derive(Debug, PartialEq)]
struct Vec2 {
    x: i64,
    y: i64,
}

// The impls below are the derive macros' own output for this type, as generated
// by `gen_serialize` / `gen_deserialize` (checked by `generated_impls_match_the_derive`).
        impl ::nanojson::Serialize for Vec2 {
            fn serialize<__W: ::nanojson::Write>(
                &self,
                __json: &mut ::nanojson::Serializer<__W, 32>,
            ) -> ::core::result::Result<(), ::nanojson::SerializeError<__W::Error>> {
                __json.object_begin()?;__json.member_key("x")?; ::nanojson::Serialize::serialize(&self.x, __json)?;__json.member_key("y")?; ::nanojson::Serialize::serialize(&self.y, __json)?;__json.object_end()?;
                ::core::result::Result::Ok(())
            }
        }
        

        impl<'__src, '__buf> ::nanojson::Deserialize<'__src, '__buf>
            for Vec2
        
        {
            fn deserialize(
                __json: &mut ::nanojson::Parser<'__src, '__buf>,
                ) -> ::core::result::Result<Self, ::nanojson::ParseError> {
                let mut x: ::core::option::Option<i64> = ::core::option::Option::None;let mut y: ::core::option::Option<i64> = ::core::option::Option::None;__json.object_begin()?;while let ::core::option::Option::Some(__key) = __json.object_member()? {match __key {"x" => { x = ::core::option::Option::Some(::nanojson::Deserialize::deserialize(__json)?); }"y" => { y = ::core::option::Option::Some(::nanojson::Deserialize::deserialize(__json)?); }_ => { return ::core::result::Result::Err(__json.unknown_field()); }}}__json.object_end()?;::core::result::Result::Ok(Vec2 {x: x.unwrap_or(::core::default::Default::default()),y: y.unwrap_or(::core::default::Default::default()),})
            }
        }
        

// Nested struct: Address contains two i64 fields.
#[derive(Debug, PartialEq)]
struct Address {
    street_num: i64,
    zip: i64,
}

impl Serialize for Address {
    fn serialize<W: Write>(&self, json: &mut Serializer<W, 32>) -> Result<(), SerializeError<W::Error>> {
        json.object_begin()?;
        json.member_key("street_num")?;
        self.street_num.serialize(json)?;
        json.member_key("zip")?;
        self.zip.serialize(json)?;
        json.object_end()?;
        Ok(())
    }
}

impl<'s, 'b> Deserialize<'s, 'b> for Address {
    fn deserialize(json: &mut Parser<'s, 'b>) -> Result<Self, ParseError> {
        let mut street_num: Option<i64> = None;
        let mut zip: Option<i64> = None;
        json.object_begin()?;
        while let Some(key) = json.object_member()? {
            match key {
                "street_num" => street_num = Some(Deserialize::deserialize(json)?),
                "zip" => zip = Some(Deserialize::deserialize(json)?),
                _ => return Err(json.unknown_field()),
            }
        }
        json.object_end()?;
        Ok(Address {
            street_num: street_num.ok_or_else(|| missing(json, "street_num"))?,
            zip: zip.ok_or_else(|| missing(json, "zip"))?,
        })
    }
}

// Outer struct wraps inner struct.
#[derive(Debug, PartialEq)]
struct Person {
    age: i64,
    active: bool,
    address: Address,
}

impl Serialize for Person {
    fn serialize<W: Write>(&self, json: &mut Serializer<W, 32>) -> Result<(), SerializeError<W::Error>> {
        json.object_begin()?;
        json.member_key("age")?;
        self.age.serialize(json)?;
        json.member_key("active")?;
        self.active.serialize(json)?;
        json.member_key("address")?;
        self.address.serialize(json)?;
        json.object_end()?;
        Ok(())
    }
}

impl<'s, 'b> Deserialize<'s, 'b> for Person {
    fn deserialize(json: &mut Parser<'s, 'b>) -> Result<Self, ParseError> {
        let mut age: Option<i64> = None;
        let mut active: Option<bool> = None;
        let mut address: Option<Address> = None;
        json.object_begin()?;
        while let Some(key) = json.object_member()? {
            match key {
                "age" => age = Some(Deserialize::deserialize(json)?),
                "active" => active = Some(Deserialize::deserialize(json)?),
                "address" => address = Some(Deserialize::deserialize(json)?),
                _ => return Err(json.unknown_field()),
            }
        }
        json.object_end()?;
        Ok(Person {
            age: age.ok_or_else(|| missing(json, "age"))?,
            active: active.ok_or_else(|| missing(json, "active"))?,
            address: address.ok_or_else(|| missing(json, "address"))?,
        })
    }
}

// Struct with an Option field.
#[derive(Debug, PartialEq)]
struct MaybePoint {
    x: i64,
    y: Option<i64>,
}

impl Serialize for MaybePoint {
    fn serialize<W: Write>(&self, json: &mut Serializer<W, 32>) -> Result<(), SerializeError<W::Error>> {
        json.object_begin()?;
        json.member_key("x")?;
        self.x.serialize(json)?;
        json.member_key("y")?;
        self.y.serialize(json)?;
        json.object_end()?;
        Ok(())
    }
}

impl<'s, 'b> Deserialize<'s, 'b> for MaybePoint {
    fn deserialize(json: &mut Parser<'s, 'b>) -> Result<Self, ParseError> {
        let mut x: Option<i64> = None;
        let mut y: Option<Option<i64>> = None;
        json.object_begin()?;
        while let Some(key) = json.object_member()? {
            match key {
                "x" => x = Some(Deserialize::deserialize(json)?),
                "y" => y = Some(Deserialize::deserialize(json)?),
                _ => return Err(json.unknown_field()),
            }
        }
        json.object_end()?;
        Ok(MaybePoint {
            x: x.ok_or_else(|| missing(json, "x"))?,
            y: y.ok_or_else(|| missing(json, "y"))?,
        })
    }
}

// Unit enum — serialized as a JSON string; `East` is renamed to "east".
#[derive(Debug, PartialEq)]
enum Direction {
    North,
    South,
    East,
    West,
}

// The impls below are the derive macros' own output for this type, as generated
// by `gen_serialize` / `gen_deserialize` (checked by `generated_impls_match_the_derive`).
        impl ::nanojson::Serialize for Direction {
            fn serialize<__W: ::nanojson::Write>(
                &self,
                __json: &mut ::nanojson::Serializer<__W, 32>,
            ) -> ::core::result::Result<(), ::nanojson::SerializeError<__W::Error>> {
                match self { Self::North => { __json.string("North")?; }Self::South => { __json.string("South")?; }Self::East => { __json.string("east")?; }Self::West => { __json.string("West")?; } }
                ::core::result::Result::Ok(())
            }
        }
        

        impl<'__src, '__buf> ::nanojson::Deserialize<'__src, '__buf>
            for Direction
        
        {
            fn deserialize(
                __json: &mut ::nanojson::Parser<'__src, '__buf>,
                ) -> ::core::result::Result<Self, ::nanojson::ParseError> {
                let __tag = __json.string()?;match __tag {"North" => ::core::result::Result::Ok(Direction::North),"South" => ::core::result::Result::Ok(Direction::South),"east" => ::core::result::Result::Ok(Direction::East),"West" => ::core::result::Result::Ok(Direction::West),_ => ::core::result::Result::Err(::nanojson::ParseError { kind: ::nanojson::ParseErrorKind::UnknownField, offset: __json.error_offset() }),}
            }
        }
        


// Enum with struct variants, externally tagged: {"Variant": {...}}.
#[derive(Debug, PartialEq)]
enum Shape {
    Circle { radius: i64 },
    Rect { width: i64, height: i64 },
}

// The impls below are the derive macros' own output for this type, as generated
// by `gen_serialize` / `gen_deserialize` (checked by `generated_impls_match_the_derive`).
        impl ::nanojson::Serialize for Shape {
            fn serialize<__W: ::nanojson::Write>(
                &self,
                __json: &mut ::nanojson::Serializer<__W, 32>,
            ) -> ::core::result::Result<(), ::nanojson::SerializeError<__W::Error>> {
                match self { Self::Circle { radius,  } => { __json.object_begin()?;__json.member_key("Circle")?;__json.object_begin()?;__json.member_key("radius")?; ::nanojson::Serialize::serialize(radius, __json)?;__json.object_end()?;__json.object_end()?; }Self::Rect { width, height,  } => { __json.object_begin()?;__json.member_key("Rect")?;__json.object_begin()?;__json.member_key("width")?; ::nanojson::Serialize::serialize(width, __json)?;__json.member_key("height")?; ::nanojson::Serialize::serialize(height, __json)?;__json.object_end()?;__json.object_end()?; } }
                ::core::result::Result::Ok(())
            }
        }
        

        impl<'__src, '__buf> ::nanojson::Deserialize<'__src, '__buf>
            for Shape
        
        {
            fn deserialize(
                __json: &mut ::nanojson::Parser<'__src, '__buf>,
                ) -> ::core::result::Result<Self, ::nanojson::ParseError> {
                __json.object_begin()?;let __result = if let ::core::option::Option::Some(__tag) = __json.object_member()? {match __tag {"Circle" => { let mut radius: ::core::option::Option<i64> = ::core::option::Option::None;__json.object_begin()?;while let ::core::option::Option::Some(__key) = __json.object_member()? {match __key {"radius" => { radius = ::core::option::Option::Some(::nanojson::Deserialize::deserialize(__json)?); }_ => { return ::core::result::Result::Err(__json.unknown_field()); }}}__json.object_end()?;Shape::Circle {radius: radius.ok_or_else(|| ::nanojson::ParseError { kind: ::nanojson::ParseErrorKind::MissingField { field: "radius" }, offset: __json.error_offset() })?,} },"Rect" => { let mut width: ::core::option::Option<i64> = ::core::option::Option::None;let mut height: ::core::option::Option<i64> = ::core::option::Option::None;__json.object_begin()?;while let ::core::option::Option::Some(__key) = __json.object_member()? {match __key {"width" => { width = ::core::option::Option::Some(::nanojson::Deserialize::deserialize(__json)?); }"height" => { height = ::core::option::Option::Some(::nanojson::Deserialize::deserialize(__json)?); }_ => { return ::core::result::Result::Err(__json.unknown_field()); }}}__json.object_end()?;Shape::Rect {width: width.ok_or_else(|| ::nanojson::ParseError { kind: ::nanojson::ParseErrorKind::MissingField { field: "width" }, offset: __json.error_offset() })?,height: height.ok_or_else(|| ::nanojson::ParseError { kind: ::nanojson::ParseErrorKind::MissingField { field: "height" }, offset: __json.error_offset() })?,} },_ => return ::core::result::Result::Err(::nanojson::ParseError { kind: ::nanojson::ParseErrorKind::UnknownField, offset: __json.error_offset() }),}} else {return ::core::result::Result::Err(::nanojson::ParseError { kind: ::nanojson::ParseErrorKind::MissingField { field: "(variant)" }, offset: __json.error_offset() });};__json.object_end()?;::core::result::Result::Ok(__result)
            }
        }
        


// Struct with a &str field — only Serialize is written.
#[derive(Debug)]
struct WithLabel<'a> {
    label: &'a str,
    count: i64,
}

impl Serialize for WithLabel<'_> {
    fn serialize<W: Write>(&self, json: &mut Serializer<W, 32>) -> Result<(), SerializeError<W::Error>> {
        json.object_begin()?;
        json.member_key("label")?;
        self.label.serialize(json)?;
        json.member_key("count")?;
        self.count.serialize(json)?;
        json.object_end()?;
        Ok(())
    }
}

// ============================================================
// ---- Helpers ----
// ============================================================

fn serialize_val<T: Serialize>(val: &T) -> std::vec::Vec<u8> {
    let mut buf = [0u8; 1024];
    let written;
    {
        let mut w = SliceWriter::new(&mut buf);
        let mut json: Serializer<_, 32> = Serializer::new(&mut w);
        val.serialize(&mut json).expect("serialization failed");
        written = w.pos();
    }
    buf[..written].to_vec()
}

fn as_str(bytes: &[u8]) -> &str {
    std::str::from_utf8(bytes).unwrap()
}

fn roundtrip<T>(val: &T) -> T
where
    T: Serialize + for<'s, 'b> Deserialize<'s, 'b> + std::fmt::Debug + PartialEq,
{
    let json = serialize_val(val);
    let mut buf = [0u8; 128];
    let mut json = Parser::new(&json, &mut buf);
    T::deserialize(&mut json).expect("deserialization failed")
}

// ============================================================
// ---- Serializer tests ----
// ============================================================

#[test]
fn test_point_serialize() {
    let p = Point { x: 3, y: -7 };
    assert_eq!(as_str(&serialize_val(&p)), r#"{"x":3,"y":-7}"#);
}

#[test]
fn test_sensor_serialize() {
    let s = Sensor { value: 42, active: true };
    assert_eq!(as_str(&serialize_val(&s)), r#"{"value":42,"active":true}"#);
}

#[test]
fn test_renamed_serialize() {
    let r = Renamed { value: 99 };
    let json = serialize_val(&r);
    let s = as_str(&json);
    assert!(s.contains("\"first_name\""), "got: {s}");
    assert!(!s.contains("\"value\""), "got: {s}");
}

#[test]
fn test_with_label_serialize() {
    let w = WithLabel { label: "hello", count: 3 };
    assert_eq!(as_str(&serialize_val(&w)), r#"{"label":"hello","count":3}"#);
}

#[test]
fn test_enum_serialize() {
    assert_eq!(as_str(&serialize_val(&Direction::North)), "\"North\"");
    assert_eq!(as_str(&serialize_val(&Direction::South)), "\"South\"");
    assert_eq!(as_str(&serialize_val(&Direction::East)),  "\"east\"");
    assert_eq!(as_str(&serialize_val(&Direction::West)),  "\"West\"");
}

#[test]
fn test_nested_struct_serialize() {
    let p = Person {
        age: 30,
        active: true,
        address: Address { street_num: 42, zip: 10001 },
    };
    let json = serialize_val(&p);
    let s = as_str(&json);
    assert_eq!(s, r#"{"age":30,"active":true,"address":{"street_num":42,"zip":10001}}"#);
}

#[test]
fn test_option_some_serialize() {
    let mp = MaybePoint { x: 5, y: Some(10) };
    assert_eq!(as_str(&serialize_val(&mp)), r#"{"x":5,"y":10}"#);
}

#[test]
fn test_option_none_serialize() {
    let mp = MaybePoint { x: 5, y: None };
    assert_eq!(as_str(&serialize_val(&mp)), r#"{"x":5,"y":null}"#);
}

#[test]
fn test_struct_variant_serialize() {
    let c = Shape::Circle { radius: 7 };
    assert_eq!(as_str(&serialize_val(&c)), r#"{"Circle":{"radius":7}}"#);

    let r = Shape::Rect { width: 10, height: 20 };
    assert_eq!(as_str(&serialize_val(&r)), r#"{"Rect":{"width":10,"height":20}}"#);
}

// ============================================================
// ---- Roundtrip tests ----
// ============================================================

#[test]
fn test_point_roundtrip() {
    let p = Point { x: 100, y: -200 };
    assert_eq!(p, roundtrip(&p));
}

#[test]
fn test_sensor_roundtrip() {
    let s = Sensor { value: -1, active: false };
    assert_eq!(s, roundtrip(&s));
}

#[test]
fn test_renamed_roundtrip() {
    let r = Renamed { value: 7 };
    assert_eq!(r, roundtrip(&r));
}

#[test]
fn test_nested_struct_roundtrip() {
    let p = Person {
        age: 25,
        active: false,
        address: Address { street_num: 1, zip: 90210 },
    };
    assert_eq!(p, roundtrip(&p));
}

#[test]
fn test_option_some_roundtrip() {
    let mp = MaybePoint { x: 3, y: Some(-99) };
    assert_eq!(mp, roundtrip(&mp));
}

#[test]
fn test_option_none_roundtrip() {
    let mp = MaybePoint { x: 3, y: None };
    assert_eq!(mp, roundtrip(&mp));
}

#[test]
fn test_enum_unit_roundtrip() {
    assert_eq!(Direction::North, roundtrip(&Direction::North));
    assert_eq!(Direction::South, roundtrip(&Direction::South));
    assert_eq!(Direction::East,  roundtrip(&Direction::East));
    assert_eq!(Direction::West,  roundtrip(&Direction::West));
}

#[test]
fn test_struct_variant_roundtrip() {
    assert_eq!(Shape::Circle { radius: 5 }, roundtrip(&Shape::Circle { radius: 5 }));
    assert_eq!(
        Shape::Rect { width: 100, height: 200 },
        roundtrip(&Shape::Rect { width: 100, height: 200 }),
    );
}

// Renamed enum value round-trips: json uses "east", not "East".
#[test]
fn test_renamed_enum_roundtrip() {
    let json = serialize_val(&Direction::East);
    assert_eq!(as_str(&json), "\"east\"");
    let mut buf = [0u8; 32];
    let mut json = Parser::new(&json, &mut buf);
    assert_eq!(Direction::deserialize(&mut json).unwrap(), Direction::East);
}

// ============================================================
// ---- Manual string deserialization ----
// ============================================================

/// Demonstrates the copy-before-overwrite pattern for &str fields.
/// The scratch buffer is reused per string, so callers must copy
/// each string value before calling any further parse methods.
#[test]
fn test_manual_string_deserialize() {
    let src = br#"{"label":"world","count":5}"#;
    let mut str_buf = [0u8; 64];
    let mut json = Parser::new(src, &mut str_buf);

    let mut label_bytes = [0u8; 16];
    let mut label_len = 0usize;
    let mut count = 0i64;

    json.object_begin().unwrap();
    while let Some(key) = json.object_member().unwrap() {
        let k = key.to_string();
        match k.as_str() {
            "label" => {
                let s = json.string().unwrap();
                label_len = s.len();
                label_bytes[..label_len].copy_from_slice(s.as_bytes());
            }
            "count" => {
                count = json.number_str().unwrap().parse().unwrap();
            }
            _ => panic!("unexpected field"),
        }
    }
    json.object_end().unwrap();

    assert_eq!(&label_bytes[..label_len], b"world");
    assert_eq!(count, 5);
}

#[test]
fn test_manual_escaped_string_deserialize() {
    let src = br#"{"label":"hello\nworld","count":1}"#;
    let mut str_buf = [0u8; 64];
    let mut json = Parser::new(src, &mut str_buf);

    let mut label_bytes = [0u8; 32];
    let mut label_len = 0usize;
    let mut count = 0i64;

    json.object_begin().unwrap();
    while let Some(key) = json.object_member().unwrap() {
        let k = key.to_string();
        match k.as_str() {
            "label" => {
                let s = json.string().unwrap();
                label_len = s.len();
                label_bytes[..label_len].copy_from_slice(s.as_bytes());
            }
            "count" => {
                count = json.number_str().unwrap().parse().unwrap();
            }
            _ => panic!("unexpected field"),
        }
    }
    json.object_end().unwrap();

    assert_eq!(&label_bytes[..label_len], b"hello\nworld");
    assert_eq!(count, 1);
}

// ============================================================
// ---- Recursive / nested JSON structures ----
// ============================================================

/// Manually parse an arbitrarily deep nested object (no derive needed).
/// Walks depth-first, counting all integer leaf values found.
fn sum_leaf_integers(json: &mut Parser<'_, '_>) -> i64 {
    if json.is_object_ahead() {
        let mut total = 0i64;
        json.object_begin().unwrap();
        while let Some(_key) = json.object_member().unwrap() {
            total += sum_leaf_integers(json);
        }
        json.object_end().unwrap();
        total
    } else if json.is_array_ahead() {
        let mut total = 0i64;
        json.array_begin().unwrap();
        while json.array_item().unwrap() {
            total += sum_leaf_integers(json);
        }
        json.array_end().unwrap();
        total
    } else if json.is_number_ahead() {
        let s = json.number_str().unwrap();
        s.parse::<i64>().unwrap_or(0)
    } else if json.is_null_ahead() {
        json.null().unwrap();
        0
    } else if json.is_bool_ahead() {
        json.bool_val().unwrap();
        0
    } else if json.is_string_ahead() {
        json.string().unwrap();
        0
    } else {
        panic!("unexpected token");
    }
}

#[test]
fn test_recursive_sum_nested() {
    // Sum all integer leaf values in a nested structure.
    let src = br#"{"a":1,"b":{"c":2,"d":{"e":3}},"f":4}"#;
    let mut buf = [0u8; 32];
    let mut json = Parser::new(src, &mut buf);
    assert_eq!(sum_leaf_integers(&mut json), 10); // 1+2+3+4
}

#[test]
fn test_recursive_sum_array_of_objects() {
    let src = br#"[{"x":10,"y":20},{"x":1,"y":2},{"x":100}]"#;
    let mut buf = [0u8; 32];
    let mut json = Parser::new(src, &mut buf);
    assert_eq!(sum_leaf_integers(&mut json), 133); // 10+20+1+2+100
}

#[test]
fn test_recursive_sum_mixed() {
    // Mix of nulls, bools, strings, and integers.
    let src = br#"{"a":null,"b":true,"c":"hello","d":42,"e":[1,2,3]}"#;
    let mut buf = [0u8; 32];
    let mut json = Parser::new(src, &mut buf);
    assert_eq!(sum_leaf_integers(&mut json), 48); // 42+1+2+3
}

/// Serialize a derived struct that itself contains another derived struct,
/// then deserialize the full JSON back with recursive application.
#[test]
fn test_deeply_nested_derived_roundtrip() {
    let p = Person {
        age: 99,
        active: true,
        address: Address { street_num: 123, zip: 99999 },
    };
    let json = serialize_val(&p);
    let s = as_str(&json);
    // Verify raw JSON structure.
    assert!(s.contains("\"age\":99"), "got: {s}");
    assert!(s.contains("\"address\":{\"street_num\":123,\"zip\":99999}"), "got: {s}");
    // Deserialize back.
    let p2 = roundtrip(&p);
    assert_eq!(p, p2);
}

// ============================================================
// ---- Error cases for derived deserializers ----
// ============================================================

#[test]
fn test_missing_field_error() {
    let src = br#"{"x":5}"#;
    let mut buf = [0u8; 64];
    let mut json = Parser::new(src, &mut buf);
    let result = Point::deserialize(&mut json);
    assert!(matches!(
        result,
        Err(nanojson::ParseError { kind: nanojson::ParseErrorKind::MissingField { .. }, .. })
    ));
}

#[test]
fn test_unknown_field_error() {
    let src = br#"{"x":1,"y":2,"z":3}"#;
    let mut buf = [0u8; 64];
    let mut json = Parser::new(src, &mut buf);
    let result = Point::deserialize(&mut json);
    assert!(matches!(
        result,
        Err(nanojson::ParseError { kind: nanojson::ParseErrorKind::UnknownField, .. })
    ));
}

#[test]
fn test_missing_nested_field_error() {
    // Outer struct present but inner Address is missing zip field.
    let src = br#"{"age":1,"active":true,"address":{"street_num":5}}"#;
    let mut buf = [0u8; 64];
    let mut json = Parser::new(src, &mut buf);
    let result = Person::deserialize(&mut json);
    assert!(matches!(
        result,
        Err(nanojson::ParseError { kind: nanojson::ParseErrorKind::MissingField { .. }, .. })
    ));
}

#[test]
fn test_unknown_field_in_nested_error() {
    let src = br#"{"age":1,"active":false,"address":{"street_num":1,"zip":2,"extra":3}}"#;
    let mut buf = [0u8; 64];
    let mut json = Parser::new(src, &mut buf);
    let result = Person::deserialize(&mut json);
    assert!(matches!(
        result,
        Err(nanojson::ParseError { kind: nanojson::ParseErrorKind::UnknownField, .. })
    ));
}

// ============================================================
// ---- no_std convenience helpers ----
// ============================================================

#[test]
fn test_stringify_sized_roundtrip() {
    let p = Point { x: 3, y: -7 };
    let (buf, len) = nanojson::stringify_sized::<128, _>(&p).unwrap();
    let p2: Point = nanojson::parse_sized(&mut [0u8; 64], &buf[..len]).unwrap();
    assert_eq!(p, p2);
}

#[test]
fn test_stringify_manual_sized() {
    let (buf, len) = nanojson::stringify_manual_sized::<64>(|s| {
        s.object_begin()?;
        s.member_key("x")?; s.integer(10)?;
        s.member_key("y")?; s.integer(20)?;
        s.object_end()
    }).unwrap();
    let p: Point = nanojson::parse_sized(&mut [0u8; 32], &buf[..len]).unwrap();
    assert_eq!(p, Point { x: 10, y: 20 });
}

#[test]
fn test_measure_matches_stringify_sized() {
    let p = Point { x: 1, y: 2 };
    let (_, len) = nanojson::stringify_sized::<128, _>(&p).unwrap();
    let measured = nanojson::measure(|s| p.serialize(s));
    assert_eq!(measured, len);
}

#[test]
fn test_measure_closure() {
    let n = nanojson::measure(|s| {
        s.object_begin()?;
        s.member_key("x")?; s.integer(42)?;
        s.member_key("y")?; s.integer(-1)?;
        s.object_end()
    });
    // {"x":42,"y":-1} = 15 bytes
    assert_eq!(n, 15);
}

#[test]
fn test_stringify_sized_nested() {
    let person = Person { age: 30, active: true, address: Address { street_num: 1, zip: 99 } };
    let (buf, len) = nanojson::stringify_sized::<256, _>(&person).unwrap();
    let person2: Person = nanojson::parse_sized(&mut [0u8; 64], &buf[..len]).unwrap();
    assert_eq!(person, person2);
}

// ============================================================
// ---- std convenience helpers ----
// ============================================================

#[test]
fn test_stringify_from_str_roundtrip() {
    let p = Point { x: 100, y: -200 };
    let json = nanojson::stringify(&p).unwrap();
    let p2: Point = nanojson::parse(json.as_bytes()).unwrap();
    assert_eq!(p, p2);
}

#[test]
fn test_stringify_from_bytes_roundtrip() {
    let s = Sensor { value: 42, active: false };
    let json = nanojson::stringify(&s).unwrap();
    let s2: Sensor = nanojson::parse(json.as_bytes()).unwrap();
    assert_eq!(s, s2);
}

#[test]
fn test_stringify_manual_closure() {
    let json = nanojson::stringify_manual(|s| {
        s.object_begin()?;
        s.member_key("x")?; s.integer(7)?;
        s.member_key("y")?; s.integer(-2)?;
        s.object_end()
    }).unwrap();
    assert_eq!(json, r#"{"x":7,"y":-2}"#);
    let p: Point = nanojson::parse(json.as_bytes()).unwrap();
    assert_eq!(p, Point { x: 7, y: -2 });
}

#[test]
fn test_parse_manual_closure() {
    let src = br#"{"x":3,"y":4}"#;
    let p = nanojson::parse_manual(src, |parser| Point::deserialize(parser)).unwrap();
    assert_eq!(p, Point { x: 3, y: 4 });
}

#[test]
fn test_parse_manual_sized_closure() {
    let src = br#"{"x":3,"y":4}"#;
    let p = nanojson::parse_manual_sized(&mut [0u8; 256], src, |parser| Point::deserialize(parser)).unwrap();
    assert_eq!(p, Point { x: 3, y: 4 });
}

#[test]
fn test_stringify_nested_struct() {
    let person = Person { age: 25, active: true, address: Address { street_num: 10, zip: 12345 } };
    let json = nanojson::stringify(&person).unwrap();
    let person2: Person = nanojson::parse(json.as_bytes()).unwrap();
    assert_eq!(person, person2);
}

#[test]
fn test_stringify_enum() {
    let dir = Direction::East;
    let json = nanojson::stringify(&dir).unwrap();
    assert_eq!(json, "\"east\"");
    let dir2: Direction = nanojson::parse(json.as_bytes()).unwrap();
    assert_eq!(dir, dir2);
}

#[test]
fn test_stringify_struct_variant_enum() {
    let shape = Shape::Rect { width: 5, height: 10 };
    let json = nanojson::stringify(&shape).unwrap();
    let shape2: Shape = nanojson::parse(json.as_bytes()).unwrap();
    assert_eq!(shape, shape2);
}

#[test]
fn test_measure_matches_stringify_len() {
    let p = Point { x: 99, y: -1 };
    let json = nanojson::stringify(&p).unwrap();
    let measured = nanojson::measure(|s| p.serialize(s));
    assert_eq!(measured, json.len());
}

#[test]
fn test_wrong_type_for_field_error() {
    // x is not an integer.
    let src = br#"{"x":true,"y":2}"#;
    let mut buf = [0u8; 64];
    let mut json = Parser::new(src, &mut buf);
    let result = Point::deserialize(&mut json);
    assert!(matches!(
        result,
        Err(nanojson::ParseError { kind: nanojson::ParseErrorKind::UnexpectedToken { .. }, .. })
    ));
}

#[test]
fn test_enum_unknown_variant_error() {
    let src = br#""InvalidDirection""#;
    let mut buf = [0u8; 64];
    let mut json = Parser::new(src, &mut buf);
    let result = Direction::deserialize(&mut json);
    assert!(matches!(
        result,
        Err(nanojson::ParseError { kind: nanojson::ParseErrorKind::UnknownField, .. })
    ));
}

#[test]
fn test_struct_enum_unknown_variant_error() {
    let src = br#"{"Triangle":{"base":3,"height":4}}"#;
    let mut buf = [0u8; 64];
    let mut json = Parser::new(src, &mut buf);
    let result = Shape::deserialize(&mut json);
    assert!(matches!(
        result,
        Err(nanojson::ParseError { kind: nanojson::ParseErrorKind::UnknownField, .. })
    ));
}

#[test]
fn test_option_wrong_type_error() {
    // y field expects i64 or null, but gets a string.
    let src = br#"{"x":1,"y":"not_a_number"}"#;
    let mut buf = [0u8; 64];
    let mut json = Parser::new(src, &mut buf);
    let result = MaybePoint::deserialize(&mut json);
    assert!(matches!(
        result,
        Err(nanojson::ParseError { kind: nanojson::ParseErrorKind::UnexpectedToken { .. }, .. })
    ));
}

#[test]
fn test_error_offset_missing_field() {
    // After parsing x:5 we hit '}' — missing y.
    // The offset should point somewhere in the JSON, not 0.
    let src = br#"{"x":5}"#;
    let mut buf = [0u8; 64];
    let mut json = Parser::new(src, &mut buf);
    let err = Point::deserialize(&mut json).unwrap_err();
    assert!(matches!(err.kind, nanojson::ParseErrorKind::MissingField { .. }));
    // The error offset must be a valid byte position within src.
    assert!(err.offset <= src.len(), "offset {} out of bounds", err.offset);
}

#[test]
fn test_empty_object_missing_all_fields_error() {
    let src = br#"{}"#;
    let mut buf = [0u8; 32];
    let mut json = Parser::new(src, &mut buf);
    let result = Point::deserialize(&mut json);
    assert!(matches!(
        result,
        Err(nanojson::ParseError { kind: nanojson::ParseErrorKind::MissingField { .. }, .. })
    ));
}

// ============================================================
// ---- Edge cases ----
// ============================================================

#[test]
fn test_zero_values_roundtrip() {
    let p = Point { x: 0, y: 0 };
    assert_eq!(p, roundtrip(&p));
}

#[test]
fn test_extreme_values_roundtrip() {
    let p = Point { x: i64::MAX, y: i64::MIN };
    assert_eq!(p, roundtrip(&p));
}

#[test]
fn test_sensor_false_roundtrip() {
    let s = Sensor { value: 0, active: false };
    assert_eq!(s, roundtrip(&s));
}

#[test]
fn test_renamed_negative_roundtrip() {
    let r = Renamed { value: -9999 };
    assert_eq!(r, roundtrip(&r));
}

// ============================================================
// ---- The derive's output for Point, Direction and Shape ----
// ============================================================

fn tt_ident(s: &str) -> TokenTree {
    TokenTree::Ident(s.to_owned())
}

fn tt_punct(ch: char) -> TokenTree {
    TokenTree::Punct { ch, joint: false }
}

fn tt_group(delimiter: Delimiter, stream: Vec<TokenTree>) -> TokenTree {
    TokenTree::Group { delimiter, stream }
}

fn tt_field(name: &str, ty: &str) -> Vec<TokenTree> {
    vec![tt_ident(name), tt_punct(':'), tt_ident(ty), tt_punct(',')]
}

fn tt_fields(names: &[&str]) -> Vec<TokenTree> {
    let mut v = Vec::new();
    for n in names {
        v.extend(tt_field(n, "i64"));
    }
    v
}

const POINT_SER: &str = r##"
        impl ::nanojson::Serialize for Point {
            fn serialize<__W: ::nanojson::Write>(
                &self,
                __json: &mut ::nanojson::Serializer<__W, 32>,
            ) -> ::core::result::Result<(), ::nanojson::SerializeError<__W::Error>> {
                __json.object_begin()?;__json.member_key("x")?; ::nanojson::Serialize::serialize(&self.x, __json)?;__json.member_key("y")?; ::nanojson::Serialize::serialize(&self.y, __json)?;__json.object_end()?;
                ::core::result::Result::Ok(())
            }
        }
        "##;

const POINT_DE: &str = r##"
        impl<'__src, '__buf> ::nanojson::Deserialize<'__src, '__buf>
            for Point
        
        {
            fn deserialize(
                __json: &mut ::nanojson::Parser<'__src, '__buf>,
                ) -> ::core::result::Result<Self, ::nanojson::ParseError> {
                let mut x: ::core::option::Option<i64> = ::core::option::Option::None;let mut y: ::core::option::Option<i64> = ::core::option::Option::None;__json.object_begin()?;while let ::core::option::Option::Some(__key) = __json.object_member()? {match __key {"x" => { x = ::core::option::Option::Some(::nanojson::Deserialize::deserialize(__json)?); }"y" => { y = ::core::option::Option::Some(::nanojson::Deserialize::deserialize(__json)?); }_ => { return ::core::result::Result::Err(__json.unknown_field()); }}}__json.object_end()?;::core::result::Result::Ok(Point {x: x.ok_or_else(|| ::nanojson::ParseError { kind: ::nanojson::ParseErrorKind::MissingField { field: "x" }, offset: __json.error_offset() })?,y: y.ok_or_else(|| ::nanojson::ParseError { kind: ::nanojson::ParseErrorKind::MissingField { field: "y" }, offset: __json.error_offset() })?,})
            }
        }
        "##;

const DIRECTION_SER: &str = r##"
        impl ::nanojson::Serialize for Direction {
            fn serialize<__W: ::nanojson::Write>(
                &self,
                __json: &mut ::nanojson::Serializer<__W, 32>,
            ) -> ::core::result::Result<(), ::nanojson::SerializeError<__W::Error>> {
                match self { Self::North => { __json.string("North")?; }Self::South => { __json.string("South")?; }Self::East => { __json.string("east")?; }Self::West => { __json.string("West")?; } }
                ::core::result::Result::Ok(())
            }
        }
        "##;

const DIRECTION_DE: &str = r##"
        impl<'__src, '__buf> ::nanojson::Deserialize<'__src, '__buf>
            for Direction
        
        {
            fn deserialize(
                __json: &mut ::nanojson::Parser<'__src, '__buf>,
                ) -> ::core::result::Result<Self, ::nanojson::ParseError> {
                let __tag = __json.string()?;match __tag {"North" => ::core::result::Result::Ok(Direction::North),"South" => ::core::result::Result::Ok(Direction::South),"east" => ::core::result::Result::Ok(Direction::East),"West" => ::core::result::Result::Ok(Direction::West),_ => ::core::result::Result::Err(::nanojson::ParseError { kind: ::nanojson::ParseErrorKind::UnknownField, offset: __json.error_offset() }),}
            }
        }
        "##;

const SHAPE_SER: &str = r##"
        impl ::nanojson::Serialize for Shape {
            fn serialize<__W: ::nanojson::Write>(
                &self,
                __json: &mut ::nanojson::Serializer<__W, 32>,
            ) -> ::core::result::Result<(), ::nanojson::SerializeError<__W::Error>> {
                match self { Self::Circle { radius,  } => { __json.object_begin()?;__json.member_key("Circle")?;__json.object_begin()?;__json.member_key("radius")?; ::nanojson::Serialize::serialize(radius, __json)?;__json.object_end()?;__json.object_end()?; }Self::Rect { width, height,  } => { __json.object_begin()?;__json.member_key("Rect")?;__json.object_begin()?;__json.member_key("width")?; ::nanojson::Serialize::serialize(width, __json)?;__json.member_key("height")?; ::nanojson::Serialize::serialize(height, __json)?;__json.object_end()?;__json.object_end()?; } }
                ::core::result::Result::Ok(())
            }
        }
        "##;

const SHAPE_DE: &str = r##"
        impl<'__src, '__buf> ::nanojson::Deserialize<'__src, '__buf>
            for Shape
        
        {
            fn deserialize(
                __json: &mut ::nanojson::Parser<'__src, '__buf>,
                ) -> ::core::result::Result<Self, ::nanojson::ParseError> {
                __json.object_begin()?;let __result = if let ::core::option::Option::Some(__tag) = __json.object_member()? {match __tag {"Circle" => { let mut radius: ::core::option::Option<i64> = ::core::option::Option::None;__json.object_begin()?;while let ::core::option::Option::Some(__key) = __json.object_member()? {match __key {"radius" => { radius = ::core::option::Option::Some(::nanojson::Deserialize::deserialize(__json)?); }_ => { return ::core::result::Result::Err(__json.unknown_field()); }}}__json.object_end()?;Shape::Circle {radius: radius.ok_or_else(|| ::nanojson::ParseError { kind: ::nanojson::ParseErrorKind::MissingField { field: "radius" }, offset: __json.error_offset() })?,} },"Rect" => { let mut width: ::core::option::Option<i64> = ::core::option::Option::None;let mut height: ::core::option::Option<i64> = ::core::option::Option::None;__json.object_begin()?;while let ::core::option::Option::Some(__key) = __json.object_member()? {match __key {"width" => { width = ::core::option::Option::Some(::nanojson::Deserialize::deserialize(__json)?); }"height" => { height = ::core::option::Option::Some(::nanojson::Deserialize::deserialize(__json)?); }_ => { return ::core::result::Result::Err(__json.unknown_field()); }}}__json.object_end()?;Shape::Rect {width: width.ok_or_else(|| ::nanojson::ParseError { kind: ::nanojson::ParseErrorKind::MissingField { field: "width" }, offset: __json.error_offset() })?,height: height.ok_or_else(|| ::nanojson::ParseError { kind: ::nanojson::ParseErrorKind::MissingField { field: "height" }, offset: __json.error_offset() })?,} },_ => return ::core::result::Result::Err(::nanojson::ParseError { kind: ::nanojson::ParseErrorKind::UnknownField, offset: __json.error_offset() }),}} else {return ::core::result::Result::Err(::nanojson::ParseError { kind: ::nanojson::ParseErrorKind::MissingField { field: "(variant)" }, offset: __json.error_offset() });};__json.object_end()?;::core::result::Result::Ok(__result)
            }
        }
        "##;

const RENAMED_SER: &str = r##"
        impl ::nanojson::Serialize for Renamed {
            fn serialize<__W: ::nanojson::Write>(
                &self,
                __json: &mut ::nanojson::Serializer<__W, 32>,
            ) -> ::core::result::Result<(), ::nanojson::SerializeError<__W::Error>> {
                __json.object_begin()?;__json.member_key("first_name")?; ::nanojson::Serialize::serialize(&self.value, __json)?;__json.object_end()?;
                ::core::result::Result::Ok(())
            }
        }
        "##;

const RENAMED_DE: &str = r##"
        impl<'__src, '__buf> ::nanojson::Deserialize<'__src, '__buf>
            for Renamed
        
        {
            fn deserialize(
                __json: &mut ::nanojson::Parser<'__src, '__buf>,
                ) -> ::core::result::Result<Self, ::nanojson::ParseError> {
                let mut value: ::core::option::Option<i64> = ::core::option::Option::None;__json.object_begin()?;while let ::core::option::Option::Some(__key) = __json.object_member()? {match __key {"first_name" => { value = ::core::option::Option::Some(::nanojson::Deserialize::deserialize(__json)?); }_ => { return ::core::result::Result::Err(__json.unknown_field()); }}}__json.object_end()?;::core::result::Result::Ok(Renamed {value: value.ok_or_else(|| ::nanojson::ParseError { kind: ::nanojson::ParseErrorKind::MissingField { field: "first_name" }, offset: __json.error_offset() })?,})
            }
        }
        "##;

const VEC2_SER: &str = r##"
        impl ::nanojson::Serialize for Vec2 {
            fn serialize<__W: ::nanojson::Write>(
                &self,
                __json: &mut ::nanojson::Serializer<__W, 32>,
            ) -> ::core::result::Result<(), ::nanojson::SerializeError<__W::Error>> {
                __json.object_begin()?;__json.member_key("x")?; ::nanojson::Serialize::serialize(&self.x, __json)?;__json.member_key("y")?; ::nanojson::Serialize::serialize(&self.y, __json)?;__json.object_end()?;
                ::core::result::Result::Ok(())
            }
        }
        "##;

const VEC2_DE: &str = r##"
        impl<'__src, '__buf> ::nanojson::Deserialize<'__src, '__buf>
            for Vec2
        
        {
            fn deserialize(
                __json: &mut ::nanojson::Parser<'__src, '__buf>,
                ) -> ::core::result::Result<Self, ::nanojson::ParseError> {
                let mut x: ::core::option::Option<i64> = ::core::option::Option::None;let mut y: ::core::option::Option<i64> = ::core::option::Option::None;__json.object_begin()?;while let ::core::option::Option::Some(__key) = __json.object_member()? {match __key {"x" => { x = ::core::option::Option::Some(::nanojson::Deserialize::deserialize(__json)?); }"y" => { y = ::core::option::Option::Some(::nanojson::Deserialize::deserialize(__json)?); }_ => { return ::core::result::Result::Err(__json.unknown_field()); }}}__json.object_end()?;::core::result::Result::Ok(Vec2 {x: x.unwrap_or(::core::default::Default::default()),y: y.unwrap_or(::core::default::Default::default()),})
            }
        }
        "##;

fn tt_option(inner: Vec<TokenTree>) -> Vec<TokenTree> {
    vec![
        tt_punct('#'),
        tt_group(Delimiter::Bracket, vec![tt_ident("nanojson"), tt_group(Delimiter::Parenthesis, inner)]),
    ]
}

#[test]
fn generated_field_options_match_the_derive() {
    let mut rb = tt_option(vec![tt_ident("rename"), tt_punct('='), TokenTree::Literal("\"first_name\"".to_owned())]);
    rb.extend(tt_field("value", "i64"));
    let renamed = vec![tt_ident("struct"), tt_ident("Renamed"), tt_group(Delimiter::Brace, rb)];
    let mut vb = tt_option(vec![tt_ident("default")]);
    vb.extend(tt_field("x", "i64"));
    vb.extend(tt_option(vec![tt_ident("default")]));
    vb.extend(tt_field("y", "i64"));
    let vec2 = vec![tt_ident("struct"), tt_ident("Vec2"), tt_group(Delimiter::Brace, vb)];
    for (tokens, ser, de) in [(renamed, RENAMED_SER, RENAMED_DE), (vec2, VEC2_SER, VEC2_DE)] {
        let item = parse_item(tokens).ok().unwrap();
        assert_eq!(gen_serialize(&item), ser);
        assert_eq!(gen_deserialize(&item), de);
    }
}

#[test]
fn default_fields_take_their_default_when_omitted() {
    assert_eq!(nanojson::parse::<Vec2>(b"{}").unwrap(), Vec2 { x: 0, y: 0 });
    assert_eq!(nanojson::parse::<Vec2>(br#"{"y":5}"#).unwrap(), Vec2 { x: 0, y: 5 });
    assert_eq!(nanojson::parse::<Vec2>(br#"{"x":1,"y":2}"#).unwrap(), Vec2 { x: 1, y: 2 });
    assert_eq!(as_str(&serialize_val(&Vec2 { x: 3, y: 4 })), r#"{"x":3,"y":4}"#);
}

#[test]
fn generated_impls_match_the_derive() {
    let point = vec![tt_ident("struct"), tt_ident("Point"), tt_group(Delimiter::Brace, tt_fields(&["x", "y"]))];
    let direction = vec![
        tt_ident("enum"),
        tt_ident("Direction"),
        tt_group(
            Delimiter::Brace,
            vec![
                tt_ident("North"),
                tt_punct(','),
                tt_ident("South"),
                tt_punct(','),
                tt_punct('#'),
                tt_group(
                    Delimiter::Bracket,
                    vec![
                        tt_ident("nanojson"),
                        tt_group(
                            Delimiter::Parenthesis,
                            vec![tt_ident("rename"), tt_punct('='), TokenTree::Literal("\"east\"".to_owned())],
                        ),
                    ],
                ),
                tt_ident("East"),
                tt_punct(','),
                tt_ident("West"),
                tt_punct(','),
            ],
        ),
    ];
    let mut shape_body = vec![tt_ident("Circle"), tt_group(Delimiter::Brace, tt_fields(&["radius"])), tt_punct(',')];
    shape_body.push(tt_ident("Rect"));
    shape_body.push(tt_group(Delimiter::Brace, tt_fields(&["width", "height"])));
    shape_body.push(tt_punct(','));
    let shape = vec![tt_ident("enum"), tt_ident("Shape"), tt_group(Delimiter::Brace, shape_body)];
    let expected = [
        (point, POINT_SER, POINT_DE),
        (direction, DIRECTION_SER, DIRECTION_DE),
        (shape, SHAPE_SER, SHAPE_DE),
    ];
    for (tokens, ser, de) in expected {
        let item = parse_item(tokens).ok().unwrap();
        assert_eq!(gen_serialize(&item), ser);
        assert_eq!(gen_deserialize(&item), de);
    }
}
