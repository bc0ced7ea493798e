//! Properties of whole compressions, on documents drawn from a fixed seed.
//!
//! What a document means is decided by a reader of its own, which shares nothing with the
//! library.

use tokfold_core::{
    CompressError, Compressor, Config, DecompressError, EncoderId, HeuristicEstimator,
    TokenEstimator,
};

fn compressor() -> Compressor {
    Compressor::new(Config::default())
}

const RAW_SENTINEL_LINE: &str = "\u{27E6}tkfd:v1:raw\u{27E7}\n";

const RAW_FRAME_TOKENS: usize = 10;

#[derive(Debug, Clone, PartialEq, Eq)]
enum Value {
    Null,
    Bool(bool),
    Number(String),
    Str(Str),
    Array(Vec<Value>),
    Object(Vec<(Str, Value)>),
}

#[derive(Debug, Clone, PartialEq, Eq)]
enum Str {
    Text(String),
    Raw(String),
}

fn json_semantically_eq(a: &str, b: &str) -> bool {
    match (parse(a), parse(b)) {
        (Some(va), Some(vb)) => va == vb,
        _ => false,
    }
}

fn parse(input: &str) -> Option<Value> {
    let mut p = Parser {
        src: input,
        s: input.as_bytes(),
        i: 0,
        depth: 0,
    };
    p.skip_ws();
    let v = p.value()?;
    p.skip_ws();
    if p.i == p.s.len() { Some(v) } else { None }
}

const MAX_DEPTH: usize = 1024;

struct Parser<'a> {
    src: &'a str,
    s: &'a [u8],
    i: usize,
    depth: usize,
}

impl Parser<'_> {
    fn skip_ws(&mut self) {
        while let Some(&b) = self.s.get(self.i) {
            match b {
                b' ' | b'\t' | b'\n' | b'\r' => self.i += 1,
                _ => break,
            }
        }
    }

    fn value(&mut self) -> Option<Value> {
        self.depth += 1;
        if self.depth > MAX_DEPTH {
            return None;
        }
        self.skip_ws();
        let b = *self.s.get(self.i)?;
        let out = match b {
            b'{' => self.object()?,
            b'[' => self.array()?,
            b'"' => Value::Str(self.string()?),
            b't' => {
                self.literal(b"true")?;
                Value::Bool(true)
            }
            b'f' => {
                self.literal(b"false")?;
                Value::Bool(false)
            }
            b'n' => {
                self.literal(b"null")?;
                Value::Null
            }
            b'-' | b'0'..=b'9' => Value::Number(self.number()?),
            _ => return None,
        };
        self.depth -= 1;
        Some(out)
    }

    fn object(&mut self) -> Option<Value> {
        self.i += 1;
        let mut members: Vec<(Str, Value)> = Vec::new();
        self.skip_ws();
        if self.s.get(self.i) == Some(&b'}') {
            self.i += 1;
            return Some(Value::Object(members));
        }
        loop {
            self.skip_ws();
            if *self.s.get(self.i)? != b'"' {
                return None;
            }
            let key = self.string()?;
            self.skip_ws();
            if *self.s.get(self.i)? != b':' {
                return None;
            }
            self.i += 1;
            let val = self.value()?;
            members.push((key, val));
            self.skip_ws();
            match *self.s.get(self.i)? {
                b',' => self.i += 1,
                b'}' => {
                    self.i += 1;
                    return Some(Value::Object(members));
                }
                _ => return None,
            }
        }
    }

    fn array(&mut self) -> Option<Value> {
        self.i += 1;
        let mut elems: Vec<Value> = Vec::new();
        self.skip_ws();
        if self.s.get(self.i) == Some(&b']') {
            self.i += 1;
            return Some(Value::Array(elems));
        }
        loop {
            let v = self.value()?;
            elems.push(v);
            self.skip_ws();
            match *self.s.get(self.i)? {
                b',' => self.i += 1,
                b']' => {
                    self.i += 1;
                    return Some(Value::Array(elems));
                }
                _ => return None,
            }
        }
    }

    fn string(&mut self) -> Option<Str> {
        let start = self.i + 1;
        let mut j = start;
        loop {
            match *self.s.get(j)? {
                b'"' => {
                    let body = self.src.get(start..j)?;
                    self.i = j + 1;
                    return Some(decode_string_body(body));
                }
                b'\\' => match *self.s.get(j + 1)? {
                    b'"' | b'\\' | b'/' | b'b' | b'f' | b'n' | b'r' | b't' => j += 2,
                    b'u' => {
                        for k in 0..4 {
                            if !self.s.get(j + 2 + k)?.is_ascii_hexdigit() {
                                return None;
                            }
                        }
                        j += 6;
                    }
                    _ => return None,
                },
                c if c <= 0x1F => return None,
                _ => j += 1,
            }
        }
    }

    fn number(&mut self) -> Option<String> {
        let start = self.i;
        let mut j = self.i;

        if self.s.get(j) == Some(&b'-') {
            j += 1;
        }

        match *self.s.get(j)? {
            b'0' => {
                j += 1;
                if let Some(&d) = self.s.get(j) {
                    if d.is_ascii_digit() {
                        return None;
                    }
                }
            }
            d if d.is_ascii_digit() => {
                j += 1;
                while self.s.get(j).is_some_and(u8::is_ascii_digit) {
                    j += 1;
                }
            }
            _ => return None,
        }

        if self.s.get(j) == Some(&b'.') {
            j += 1;
            let mut any = false;
            while self.s.get(j).is_some_and(u8::is_ascii_digit) {
                j += 1;
                any = true;
            }
            if !any {
                return None;
            }
        }

        if matches!(self.s.get(j), Some(&b'e' | &b'E')) {
            j += 1;
            if matches!(self.s.get(j), Some(&b'+' | &b'-')) {
                j += 1;
            }
            let mut any = false;
            while self.s.get(j).is_some_and(u8::is_ascii_digit) {
                j += 1;
                any = true;
            }
            if !any {
                return None;
            }
        }

        let lexeme = self.src.get(start..j)?.to_string();
        self.i = j;
        Some(lexeme)
    }

    fn literal(&mut self, lit: &[u8]) -> Option<()> {
        for (k, &expected) in lit.iter().enumerate() {
            if *self.s.get(self.i + k)? != expected {
                return None;
            }
        }
        self.i += lit.len();
        Some(())
    }
}

fn decode_string_body(body: &str) -> Str {
    let chars: Vec<char> = body.chars().collect();
    let mut out = String::with_capacity(body.len());
    let mut idx = 0;

    while idx < chars.len() {
        let c = chars[idx];
        if c != '\\' {
            out.push(c);
            idx += 1;
            continue;
        }

        let e = chars[idx + 1];
        match e {
            '"' => out.push('"'),
            '\\' => out.push('\\'),
            '/' => out.push('/'),
            'b' => out.push('\u{08}'),
            'f' => out.push('\u{0C}'),
            'n' => out.push('\n'),
            'r' => out.push('\r'),
            't' => out.push('\t'),
            'u' => {
                let hi = hex4(&chars, idx + 2);
                idx += 6;
                if (0xD800..=0xDBFF).contains(&hi) {
                    let paired = chars.get(idx) == Some(&'\\')
                        && chars.get(idx + 1) == Some(&'u')
                        && idx + 6 <= chars.len()
                        && (0xDC00..=0xDFFF).contains(&hex4(&chars, idx + 2));
                    if paired {
                        let lo = hex4(&chars, idx + 2);
                        let scalar = 0x10000 + ((hi as u32 - 0xD800) << 10) + (lo as u32 - 0xDC00);
                        out.push(char::from_u32(scalar).unwrap_or('\u{FFFD}'));
                        idx += 6;
                    } else {
                        return Str::Raw(body.to_string());
                    }
                    continue;
                } else if (0xDC00..=0xDFFF).contains(&hi) {
                    return Str::Raw(body.to_string());
                }
                out.push(char::from_u32(hi as u32).unwrap_or('\u{FFFD}'));
                continue;
            }
            _ => {}
        }
        idx += 2;
    }

    Str::Text(out)
}

fn hex4(chars: &[char], start: usize) -> u16 {
    let mut v: u32 = 0;
    for k in 0..4 {
        v = v * 16 + hex_val(chars[start + k]);
    }
    v as u16
}

fn hex_val(c: char) -> u32 {
    match c {
        '0'..='9' => c as u32 - '0' as u32,
        'a'..='f' => c as u32 - 'a' as u32 + 10,
        'A'..='F' => c as u32 - 'A' as u32 + 10,
        _ => 0,
    }
}

fn eq(a: &str, b: &str) -> bool {
    json_semantically_eq(a, b)
}

#[test]
fn oracle_whitespace_is_ignored() {
    assert!(eq("{\"a\":1}", "{ \"a\" : 1 }"));
    assert!(eq("[1,2,3]", "[\n  1,\n  2,\n  3\n]"));
    assert!(eq("  42  ", "42"));
    assert!(eq("{}", "{ }"));
    assert!(eq("[]", "[ ]"));
    assert!(eq(
        "{\"x\":[1,{\"y\":2}]}",
        "{\n  \"x\": [\n    1,\n    { \"y\": 2 }\n  ]\n}"
    ));
}

#[test]
fn escape_style_is_ignored_for_valid_scalars() {
    assert!(eq("\"A\"", "\"\\u0041\""));
    assert!(eq("\"/\"", "\"\\/\""));
    assert!(eq("\"é\"", "\"\\u00e9\""));
    assert!(eq("\"\\u00E9\"", "\"\\u00e9\""));
    assert!(eq("\"\\uD834\\uDD1E\"", "\"𝄞\""));
    assert!(eq("\"\\ud834\\udd1e\"", "\"\\uD834\\uDD1E\""));
    assert!(eq("{\"\\u0041\":1}", "{\"A\":1}"));
}

#[test]
fn number_lexemes_are_compared_byte_for_byte() {
    assert!(!eq("1e2", "100"));
    assert!(!eq("100.0", "100"));
    assert!(!eq("1.0", "1"));
    assert!(!eq("1E2", "1e2"));
    assert!(!eq("-0", "0"));
    assert!(!eq("1e+2", "1e2"));
    assert!(eq(" 1e2 ", "1e2"));
    assert!(eq(
        "123456789012345678901234567890",
        "123456789012345678901234567890"
    ));
}

#[test]
fn key_order_is_significant() {
    assert!(!eq("{\"a\":1,\"b\":2}", "{\"b\":2,\"a\":1}"));
    assert!(eq("{\"a\":1,\"b\":2}", "{ \"a\":1 , \"b\":2 }"));
}

#[test]
fn duplicate_keys_are_preserved_not_collapsed() {
    assert!(!eq("{\"a\":1,\"a\":2}", "{\"a\":2}"));
    assert!(!eq("{\"a\":1,\"a\":2}", "{\"a\":1}"));
    assert!(!eq("{\"a\":1,\"a\":2}", "{\"a\":2,\"a\":1}"));
    assert!(eq("{\"a\":1,\"a\":2}", "{ \"a\":1, \"a\":2 }"));
    assert!(!eq(
        "{\"o\":{\"a\":1,\"a\":2}}",
        "{\"o\":{\"a\":2,\"a\":1}}"
    ));
}

#[test]
fn array_order_is_significant() {
    assert!(!eq("[1,2]", "[2,1]"));
    assert!(!eq("[1,2,3]", "[1,3,2]"));
    assert!(eq("[1,2,3]", "[ 1, 2, 3 ]"));
}

#[test]
fn type_and_shape_differences_are_not_equal() {
    assert!(!eq("1", "\"1\""));
    assert!(!eq("true", "1"));
    assert!(!eq("null", "false"));
    assert!(!eq("{}", "[]"));
    assert!(!eq("{\"a\":1}", "[1]"));
    assert!(!eq("{\"a\":1}", "{\"a\":1,\"b\":2}"));
    assert!(!eq("{\"a\":[1,2,3]}", "{\"a\":[1,2,4]}"));
    assert!(!eq("\"abc\"", "\"abd\""));
}

#[test]
fn lone_surrogates_compare_as_raw_lexemes() {
    assert!(eq("\"\\ud834\"", "\"\\ud834\""));
    assert!(eq("[\"a\\udeadb\"]", "[\"a\\udeadb\"]"));
    assert!(!eq("\"\\ud834\"", "\"\\udc00\""));
    assert!(!eq("\"\\uD834\"", "\"\\ud834\""));
    assert!(!eq("\"\\ud834\"", "\"a\""));
    assert!(eq("[ \"\\ud834\" ]", "[\"\\ud834\"]"));
    assert!(eq("{\"\\udead\":1}", "{\"\\udead\":1}"));
    assert!(!eq("{\"\\udead\":1}", "{\"\\udeAD\":1}"));
}

#[test]
fn empty_and_scalar_documents() {
    assert!(eq("\"\"", "\"\""));
    assert!(eq("null", "null"));
    assert!(eq("true", " true "));
    assert!(!eq("\"\"", "\" \""));
}

#[test]
fn invalid_documents_are_equal_to_nothing() {
    assert!(!eq("{", "{"));
    assert!(!eq("", ""));
    assert!(!eq("   ", "   "));
    assert!(!eq("{\"a\":}", "{\"a\":}"));
    assert!(!eq("01", "01"));
    assert!(!eq("NaN", "NaN"));
    assert!(!eq("[1,2,]", "[1,2,]"));
    assert!(!eq("{} {}", "{} {}"));
    assert!(!eq("{\"a\":1}", "{\"a\":1"));
}

#[test]
fn reflexive_on_assorted_valid_documents() {
    for doc in [
        "null",
        "true",
        "false",
        "0",
        "-0",
        "1e10",
        "\"\"",
        "\"héllo\"",
        "\"\\ud834\"",
        "{}",
        "[]",
        "{\"a\":1,\"a\":2}",
        "[1,[2,[3,[4]]]]",
        "{\"x\":[1,2,{\"y\":3}],\"z\":{\"w\":[true,false,null]}}",
    ] {
        assert!(eq(doc, doc), "not reflexive on {doc:?}");
    }
}

#[test]
fn dirty_reality_inputs_are_invalid_json() {
    let c = compressor();
    let bad = [
        "NaN",
        "Infinity",
        "-Infinity",
        "[NaN]",
        "[Infinity]",
        "{\"x\":NaN}",
        "{",
        "[",
        "{\"a\":",
        "{\"a\":1",
        "[1,",
        "\"abc",
        "tru",
        "nul",
        "1 2",
        "{} {}",
        "[]x",
        "null null",
        "{\"a\":1}\n{\"b\":2}",
        "01",
        "-01",
        "{\"a\":00}",
        "\u{1b}[31mred\u{1b}[0m",
        "",
        "   ",
        "'single'",
        "{a:1}",
        "[1,2,]",
    ];
    for input in bad {
        match c.compress(input.as_bytes()) {
            Err(CompressError::InvalidJson { .. }) => {}
            other => panic!("expected InvalidJson for {input:?}, got {other:?}"),
        }
    }
}

#[test]
fn roundtrip_non_utf8_input_is_rejected() {
    let c = compressor();
    for bytes in [
        vec![0xff, 0xfe],
        vec![0x80],
        b"{\"a\":\""
            .iter()
            .copied()
            .chain([0xff, 0x22, 0x7d])
            .collect::<Vec<u8>>(),
    ] {
        match c.compress(&bytes) {
            Err(CompressError::NotUtf8) => {}
            other => panic!("expected NotUtf8 for {bytes:?}, got {other:?}"),
        }
    }
}

#[test]
fn extremely_deep_input_errors_without_stack_overflow() {
    let c = compressor();
    let unbalanced = "[".repeat(100_000);
    match c.compress(unbalanced.as_bytes()) {
        Err(CompressError::DepthExceeded { limit, .. }) => assert_eq!(limit, 512),
        other => panic!("expected DepthExceeded, got {other:?}"),
    }
    let balanced = format!("{}1{}", "[".repeat(2000), "]".repeat(2000));
    assert!(matches!(
        c.compress(balanced.as_bytes()),
        Err(CompressError::DepthExceeded { .. })
    ));
}

#[test]
fn fail_closed_full_bit_sweep() {
    let c = compressor();
    let input = r#"{"users":[{"id":1,"name":"alice"},{"id":2,"name":"bob"}],"n":42,"ok":true}"#;
    let art = c.compress(input.as_bytes()).unwrap();
    assert!(c.decompress(&art.archive).is_ok());
    for bit in 0..art.archive.len() * 8 {
        let mut corrupt = art.archive.clone();
        corrupt[bit / 8] ^= 1 << (bit % 8);
        assert!(
            c.decompress(&corrupt).is_err(),
            "flipping bit {bit} produced a valid decode"
        );
    }
}

#[test]
fn distinct_documents_get_distinct_renderings() {
    let c = compressor();
    let pairs = [
        (r#"{"a":1}"#, r#"{"a":2}"#),
        ("[1,2]", "[2,1]"),
        (r#"{"a":1,"b":2}"#, r#"{"b":2,"a":1}"#),
        ("[1e2]", "[100]"),
        (r#"{"a":1,"a":2}"#, r#"{"a":2}"#),
        ("1", "2"),
        ("\"x\"", "\"y\""),
        ("\"\\ud834\"", "\"\\udc00\""),
    ];
    for (a, b) in pairs {
        assert!(!json_semantically_eq(a, b), "oracle thinks {a:?} == {b:?}");
        let ra = c.compress(a.as_bytes()).unwrap().rendering;
        let rb = c.compress(b.as_bytes()).unwrap().rendering;
        assert_ne!(ra, rb, "distinct documents collided: {a:?} vs {b:?}");
    }
}

#[derive(Debug, Clone)]
enum Node {
    Null,
    Bool(bool),
    Num(String),
    Str(String),
    RawStr(String),
    Arr(Vec<Node>),
    Obj(Vec<(Key, Node)>),
}

#[derive(Debug, Clone)]
enum Key {
    Str(String),
    RawStr(String),
}

fn push_json_string(content: &str, out: &mut String) {
    out.push('"');
    for c in content.chars() {
        match c {
            '"' => out.push_str("\\\""),
            '\\' => out.push_str("\\\\"),
            '\n' => out.push_str("\\n"),
            '\r' => out.push_str("\\r"),
            '\t' => out.push_str("\\t"),
            '\u{08}' => out.push_str("\\b"),
            '\u{0C}' => out.push_str("\\f"),
            c if (c as u32) < 0x20 => out.push_str(&format!("\\u{:04x}", c as u32)),
            c => out.push(c),
        }
    }
    out.push('"');
}

fn json_string(content: &str) -> String {
    let mut s = String::new();
    push_json_string(content, &mut s);
    s
}

fn render_key(key: &Key, out: &mut String) {
    match key {
        Key::Str(s) => push_json_string(s, out),
        Key::RawStr(b) => {
            out.push('"');
            out.push_str(b);
            out.push('"');
        }
    }
}

fn render(n: &Node, out: &mut String) {
    match n {
        Node::Null => out.push_str("null"),
        Node::Bool(b) => out.push_str(if *b { "true" } else { "false" }),
        Node::Num(s) => out.push_str(s),
        Node::Str(s) => push_json_string(s, out),
        Node::RawStr(b) => {
            out.push('"');
            out.push_str(b);
            out.push('"');
        }
        Node::Arr(items) => {
            out.push('[');
            for (k, it) in items.iter().enumerate() {
                if k > 0 {
                    out.push(',');
                }
                render(it, out);
            }
            out.push(']');
        }
        Node::Obj(members) => {
            out.push('{');
            for (k, (key, val)) in members.iter().enumerate() {
                if k > 0 {
                    out.push(',');
                }
                render_key(key, out);
                out.push(':');
                render(val, out);
            }
            out.push('}');
        }
    }
}

fn indent(depth: usize, out: &mut String) {
    for _ in 0..depth {
        out.push_str("  ");
    }
}

fn render_pretty(n: &Node, depth: usize, out: &mut String) {
    match n {
        Node::Arr(items) if !items.is_empty() => {
            out.push('[');
            for (k, it) in items.iter().enumerate() {
                if k > 0 {
                    out.push(',');
                }
                out.push('\n');
                indent(depth + 1, out);
                render_pretty(it, depth + 1, out);
            }
            out.push('\n');
            indent(depth, out);
            out.push(']');
        }
        Node::Obj(members) if !members.is_empty() => {
            out.push('{');
            for (k, (key, val)) in members.iter().enumerate() {
                if k > 0 {
                    out.push(',');
                }
                out.push('\n');
                indent(depth + 1, out);
                render_key(key, out);
                out.push_str(": ");
                render_pretty(val, depth + 1, out);
            }
            out.push('\n');
            indent(depth, out);
            out.push('}');
        }
        other => render(other, out),
    }
}

fn inject_whitespace(doc: &str, filler: &str) -> String {
    let mut out = String::with_capacity(doc.len() * 2);
    let mut in_string = false;
    let mut escaped = false;
    for ch in doc.chars() {
        out.push(ch);
        if in_string {
            if escaped {
                escaped = false;
            } else if ch == '\\' {
                escaped = true;
            } else if ch == '"' {
                in_string = false;
            }
            continue;
        }
        match ch {
            '"' => in_string = true,
            '{' | '}' | '[' | ']' | ',' | ':' => out.push_str(filler),
            _ => {}
        }
    }
    out
}

fn uppercase_unicode_escapes(doc: &str) -> String {
    let src: Vec<char> = doc.chars().collect();
    let mut out = String::with_capacity(doc.len());
    let mut in_string = false;
    let mut i = 0;
    while i < src.len() {
        let ch = src[i];
        if !in_string {
            out.push(ch);
            if ch == '"' {
                in_string = true;
            }
            i += 1;
            continue;
        }
        if ch == '\\' && i + 1 < src.len() {
            if src[i + 1] == 'u' && i + 5 < src.len() {
                out.push_str("\\u");
                for k in 0..4 {
                    out.push(src[i + 2 + k].to_ascii_uppercase());
                }
                i += 6;
                continue;
            }
            out.push(ch);
            out.push(src[i + 1]);
            i += 2;
            continue;
        }
        out.push(ch);
        if ch == '"' {
            in_string = false;
        }
        i += 1;
    }
    out
}


struct Random {
    state: u64,
}

impl Random {
    fn new(seed: u64) -> Random {
        Random {
            state: seed.wrapping_mul(0x9E37_79B9_7F4A_7C15) | 1,
        }
    }

    fn next(&mut self) -> u64 {
        self.state ^= self.state << 13;
        self.state ^= self.state >> 7;
        self.state ^= self.state << 17;
        self.state
    }

    fn below(&mut self, n: usize) -> usize {
        (self.next() >> 11) as usize % n
    }

    fn pick<'a>(&mut self, from: &[&'a str]) -> &'a str {
        from[self.below(from.len())]
    }

    fn number(&mut self) -> String {
        match self.below(12) {
            0 => "0".to_string(),
            1 => "-0".to_string(),
            2 => i64::MIN.to_string(),
            3 => i64::MAX.to_string(),
            4 => u64::MAX.to_string(),
            5 => format!("-{}", u64::MAX),
            6 => format!("9{}", "0".repeat(99)),
            7 => "1".repeat(100),
            8 => format!("{}.{}", self.next() as i32, self.below(1_000_000)),
            9 => format!("{}e{}", self.next() as i16, self.next() as i8),
            10 => (self.next() as i64).to_string(),
            _ => self.next().to_string(),
        }
    }

    fn content(&mut self) -> String {
        match self.below(10) {
            0 => String::new(),
            1 => "\u{0}".to_string(),
            2 => "\u{feff}bom".to_string(),
            3 => "\u{e9}".to_string(),
            4 => "e\u{301}".to_string(),
            5 => "\u{1f600}".to_string(),
            6 => "tab\there".to_string(),
            7 => "new\nline".to_string(),
            8 => "quote\"and\\slash/".to_string(),
            _ => {
                let n = self.below(16);
                (0..n)
                    .map(|_| char::from_u32(self.below(0x11_0000) as u32).unwrap_or('x'))
                    .collect()
            }
        }
    }

    fn escape(&mut self, code: u32) -> String {
        if self.below(2) == 0 {
            format!("\\u{code:04X}")
        } else {
            format!("\\u{code:04x}")
        }
    }

    fn raw_body(&mut self) -> String {
        if self.below(3) > 0 {
            return self
                .pick(&[
                    "\\ud834",
                    "\\udc00",
                    "a\\udeadb",
                    "\\uD834",
                    "\\ud83d\\ude00",
                    "\\ud834\\ud834\\udd1e",
                    "\\ud834\\/",
                    "\\ud834\\u0041",
                    "\\u0041",
                    "\\u00e9",
                    "\\n\\t\\r",
                    "",
                    "plain",
                ])
                .to_string();
        }
        let n = 1 + self.below(5);
        let mut body = String::new();
        for _ in 0..n {
            let part = match self.below(11) {
                0..=5 => {
                    let code = self.below(0xF800) as u32;
                    let code = if code >= 0xD800 { code + 0x800 } else { code };
                    self.escape(code)
                }
                6..=7 => {
                    let code = 0xD800 + self.below(0x800) as u32;
                    self.escape(code)
                }
                _ => self
                    .pick(&[
                        "\\n", "\\t", "\\r", "\\b", "\\f", "\\\\", "\\\"", "\\/", "a", "Z", "0",
                        " ", "\u{e9}", "\u{1f600}",
                    ])
                    .to_string(),
            };
            body.push_str(&part);
        }
        body
    }

    fn key(&mut self) -> Key {
        match self.below(5) {
            0 => Key::Str(self.content()),
            1 => Key::RawStr(self.raw_body()),
            _ => Key::Str(self.pick(&["a", "b", "c", "id", "name", "type", "x"]).to_string()),
        }
    }

    fn node(&mut self, depth: usize) -> Node {
        match if depth == 0 { self.below(5) } else { self.below(9) } {
            0 => Node::Null,
            1 => Node::Bool(self.below(2) == 0),
            2 => Node::Num(self.number()),
            3 => Node::Str(self.content()),
            4 => Node::RawStr(self.raw_body()),
            5 | 6 => {
                let n = self.below(5);
                Node::Arr((0..n).map(|_| self.node(depth - 1)).collect())
            }
            7 => {
                let n = self.below(5);
                Node::Obj((0..n).map(|_| (self.key(), self.node(depth - 1))).collect())
            }
            _ => self.table(depth - 1),
        }
    }

    fn table(&mut self, depth: usize) -> Node {
        let keys: Vec<Key> = (0..1 + self.below(3)).map(|_| self.key()).collect();
        let n = 2 + self.below(6);
        Node::Arr(
            (0..n)
                .map(|_| {
                    let mut members: Vec<(Key, Node)> =
                        keys.iter().map(|k| (k.clone(), self.node(depth.min(1)))).collect();
                    if self.below(4) == 0 {
                        members.push((self.key(), Node::Null));
                    }
                    Node::Obj(members)
                })
                .collect(),
        )
    }

    fn document(&mut self) -> String {
        let mut out = String::new();
        match self.below(10) {
            0 => {
                let depth = 129 + self.below(32);
                out = format!("{}1{}", "[".repeat(depth), "]".repeat(depth));
            }
            1 => out = self.number(),
            2 => {
                out.push_str(self.pick(&[
                    r#"{"a":1,"a":2}"#,
                    r#"{"a":1,"a":2,"b":{"a":1,"a":2}}"#,
                    r#"[{"k":1,"k":2},{"k":3,"k":3}]"#,
                    r#"{"x":{"y":{"z":1,"z":2}},"x":9}"#,
                ]));
            }
            3 => out = format!("[{}]", json_string(&self.content())),
            4 => out = format!("[\"{}\"]", self.raw_body()),
            5..=7 => {
                let depth = 1 + self.below(7);
                render_pretty(&self.node(depth), 0, &mut out);
            }
            _ => {
                let depth = 1 + self.below(7);
                render(&self.node(depth), &mut out);
            }
        }
        out
    }

    fn related(&mut self, a: &str) -> String {
        match self.below(6) {
            0 => inject_whitespace(a, " "),
            1 => inject_whitespace(a, "\n  "),
            2 => inject_whitespace(a, "\t"),
            3 => uppercase_unicode_escapes(a),
            4 => format!("[{a}]"),
            _ => format!("{{\"w\":{a}}}"),
        }
    }
}

const CASES: u64 = 300;

fn documents() -> Vec<String> {
    (0..CASES).map(|seed| Random::new(seed).document()).collect()
}

#[test]
fn semantic_round_trip() {
    let c = compressor();
    for x in documents() {
        let art = c.compress(x.as_bytes()).unwrap();
        let restored = c.decompress(&art.archive).unwrap();
        let restored_str = std::str::from_utf8(&restored).unwrap();
        assert!(json_semantically_eq(&x, restored_str), "in {x:?}, out {restored_str:?}");
    }
}

#[test]
fn the_rendering_stands_for_the_input() {
    let c = compressor();
    let mut seen = [0usize; 3];
    for x in documents() {
        let art = c.compress(x.as_bytes()).unwrap();
        let body = art.rendering.split_once('\n').unwrap().1;
        seen[art.stats.encoder.0 as usize] += 1;
        match art.stats.encoder.0 {
            0 => assert_eq!(body, x.as_str()),
            1 => assert!(json_semantically_eq(&x, body), "in {x:?}, body {body:?}"),
            _ => {}
        }
    }
    assert!(seen.iter().all(|&n| n > 0), "an encoder never won: {seen:?}");
}

#[test]
fn compressing_again_gives_the_same_artifact() {
    let c = compressor();
    for x in documents() {
        let first = c.compress(x.as_bytes()).unwrap();
        let decoded = c.decompress(&first.archive).unwrap();
        let second = c.compress(&decoded).unwrap();
        assert_eq!(second.archive, first.archive);
        assert_eq!(second.rendering, first.rendering);
        assert_eq!(c.decompress(&second.archive).unwrap(), decoded);
        assert_eq!(decoded, x.as_bytes());
    }
}

#[test]
fn reported_tokens_are_those_of_the_rendering() {
    let c = compressor();
    for x in documents() {
        let art = c.compress(x.as_bytes()).unwrap();
        let before = HeuristicEstimator.estimate(&x);
        let rendering = HeuristicEstimator.estimate(&art.rendering);
        assert_eq!(art.stats.est_tokens_before, before);
        assert_eq!(art.stats.bytes_before, x.len());
        if art.stats.encoder == EncoderId::passthrough() {
            assert_eq!(art.stats.est_tokens_after, before);
            assert_eq!(art.stats.bytes_after, x.len());
            assert_eq!(art.rendering, format!("{RAW_SENTINEL_LINE}{x}"));
            let leading = x.chars().take_while(char::is_ascii_whitespace).count();
            assert_eq!(rendering, before + RAW_FRAME_TOKENS + usize::from(leading == 1));
        } else {
            assert_eq!(art.stats.est_tokens_after, rendering);
            assert!(rendering < before, "no win on {x:?}");
        }
    }
}

#[test]
fn equal_renderings_mean_equal_documents() {
    let c = compressor();
    let mut distinct_but_alike = 0;
    for seed in 0..2 * CASES {
        let mut random = Random::new(seed);
        let a = random.document();
        let b = random.related(&a);
        let ra = c.compress(a.as_bytes()).unwrap().rendering;
        let rb = c.compress(b.as_bytes()).unwrap().rendering;
        if ra == rb {
            assert!(json_semantically_eq(&a, &b), "{a:?} and {b:?} share {ra:?}");
            if a != b {
                distinct_but_alike += 1;
            }
        }
    }
    assert!(distinct_but_alike > 0);
}

#[test]
fn every_flipped_bit_is_refused() {
    let c = compressor();
    for seed in 0..40 {
        let mut random = Random::new(seed);
        let x = match random.below(3) {
            0 => random.number(),
            1 => format!("[{}]", json_string(&random.content())),
            _ => random
                .pick(&["{}", "[]", "null", "1e10", "{\"a\":[1,2],\"b\":{\"c\":3}}"])
                .to_string(),
        };
        let art = c.compress(x.as_bytes()).unwrap();
        for bit in 0..art.archive.len() * 8 {
            let mut flipped = art.archive.clone();
            flipped[bit / 8] ^= 1 << (bit % 8);
            assert!(c.decompress(&flipped).is_err(), "bit {bit} of {x:?}");
        }
    }
}

#[test]
fn every_cut_and_every_extension_is_refused() {
    let c = compressor();
    for x in ["null", "{\"a\":[1,2,3]}"] {
        let art = c.compress(x.as_bytes()).unwrap();
        for len in 0..art.archive.len() {
            assert!(c.decompress(&art.archive[..len]).is_err(), "{len} bytes of {x:?}");
        }
        let mut longer = art.archive.clone();
        longer.push(0);
        assert!(matches!(c.decompress(&longer), Err(DecompressError::ChecksumMismatch)));
    }
}

#[test]
fn hostile_bytes_are_answered() {
    let c = compressor();
    let mut accepted = 0;
    let mut refused = 0;
    for seed in 0..2 * CASES {
        let mut random = Random::new(seed);
        let mut bytes = random.document().into_bytes();
        match random.below(4) {
            0 => {}
            1 => {
                for _ in 0..1 + random.below(3) {
                    let at = random.below(bytes.len());
                    bytes[at] = random.next() as u8;
                }
            }
            2 => bytes.extend_from_slice(&[0xff, 0xfe]),
            _ => bytes.truncate(bytes.len() / 2),
        }
        match c.compress(&bytes) {
            Ok(art) => {
                accepted += 1;
                assert_eq!(c.decompress(&art.archive).unwrap(), bytes);
            }
            Err(_) => refused += 1,
        }
        assert!(c.decompress(&bytes).is_err());
    }
    assert!(accepted > 0 && refused > 0);
}

#[test]
fn nesting_beyond_the_limit_is_refused() {
    for limit in 1usize..=16 {
        let c = Compressor::new(Config::builder().max_depth(limit).build());
        for depth in [limit + 1, limit + 64] {
            let input = format!("{}1{}", "[".repeat(depth), "]".repeat(depth));
            match c.compress(input.as_bytes()) {
                Err(CompressError::DepthExceeded { depth: reached, limit: allowed }) => {
                    assert_eq!((reached, allowed), (limit + 1, limit));
                }
                other => panic!("expected DepthExceeded, got {other:?}"),
            }
        }
        let input = format!("{}1{}", "[".repeat(limit), "]".repeat(limit));
        assert!(c.compress(input.as_bytes()).is_ok());
    }
}
