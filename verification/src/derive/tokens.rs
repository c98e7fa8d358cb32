//! Token trees, as a derive macro receives them, and the text they stand for.
use vstd::prelude::*;
use vstd::string::*;
use vstd::utf8::*;

use crate::deserialize::encode_utf8_cp;
use crate::text::string_from_utf8;

verus! {

/// The delimiters around a group of tokens.
#[derive(Clone, Copy, Debug, PartialEq, Eq, Structural)]
pub enum Delimiter {
    Parenthesis,
    Brace,
    Bracket,
    /// No delimiters (a group the compiler made invisibly).
    Invisible,
}

/// A token tree: an identifier, a punctuation character (`joint` when it is glued to the
/// next token, as the `'` of a lifetime is), a literal as written in the source, or a
/// delimited group of token trees.
#[derive(Debug)]
pub enum TokenTree {
    Ident(String),
    Punct { ch: char, joint: bool },
    Literal(String),
    Group { delimiter: Delimiter, stream: Vec<TokenTree> },
}

/// Rust source text under construction.
pub struct CodeBuf {
    bytes: Vec<u8>,
}

impl CodeBuf {
    /// The text is valid UTF-8, as every piece appended is.
    pub closed spec fn wf(self) -> bool {
        valid_utf8(self.bytes@)
    }

    /// The text written so far.
    pub closed spec fn text(self) -> Seq<u8> {
        self.bytes@
    }

    pub fn new() -> (b: Self)
        ensures
            b.wf(),
            b.text() == Seq::<u8>::empty(),
    {
        proof {
            assert(valid_utf8(Seq::<u8>::empty())) by {
                encode_utf8_valid_utf8(Seq::<char>::empty());
                assert(encode_utf8(Seq::<char>::empty()) =~= Seq::<u8>::empty());
            }
        }
        CodeBuf { bytes: Vec::new() }
    }

    /// Appends `s`.
    pub fn push(&mut self, s: &str)
        requires
            old(self).wf(),
        ensures
            final(self).wf(),
            final(self).text() == old(self).text() + s.spec_bytes(),
    {
        let ghost before = self.bytes@;
        proof {
            encode_utf8_valid_utf8(s@);
            assert(valid_utf8(s.spec_bytes()));
            valid_utf8_concat(before, s.spec_bytes());
        }
        self.bytes.extend_from_slice(s.as_bytes());
        assert(self.bytes@ =~= before + s.spec_bytes());
    }

    /// Appends the character `c`.
    pub fn push_char(&mut self, c: char)
        requires
            old(self).wf(),
        ensures
            final(self).wf(),
            final(self).text() == old(self).text() + char_text(c),
    {
        proof {
            char_is_scalar(c);
            lemma_char_text_valid(c);
            valid_utf8_concat(self.bytes@, char_text(c));
        }
        let (b, n) = encode_utf8_cp(c as u32);
        let mut i: usize = 0;
        let ghost start = self.bytes@;
        while i < n
            invariant
                i <= n <= 4,
                b@.take(n as int) == char_text(c),
                self.bytes@ == start + char_text(c).take(i as int),
                valid_utf8(start + char_text(c)),
            decreases n - i,
        {
            self.bytes.push(b[i]);
            i = i + 1;
            assert(self.bytes@ =~= start + char_text(c).take(i as int));
        }
        assert(char_text(c).take(n as int) =~= char_text(c));
    }

    /// The text as a `String`.
    pub fn into_string(self) -> (s: String)
        requires
            self.wf(),
        ensures
            encode_utf8(s@) == self.text(),
    {
        match string_from_utf8(self.bytes) {
            Some(s) => s,
            None => String::new(),
        }
    }
}

/// The UTF-8 bytes of a character.
pub open spec fn char_text(c: char) -> Seq<u8> {
    encode_scalar(c as u32)
}

/// The bytes of a character are valid UTF-8.
proof fn lemma_char_text_valid(c: char)
    ensures
        valid_utf8(char_text(c)),
{
    let chars = seq![c];
    encode_utf8_valid_utf8(chars);
    assert(chars.drop_first() =~= Seq::<char>::empty());
    assert(encode_utf8(chars.drop_first()) =~= Seq::<u8>::empty());
    assert(encode_utf8(chars) == encode_scalar(chars[0] as u32) + encode_utf8(chars.drop_first()));
    assert(encode_utf8(chars) =~= char_text(c));
}

/// The bytes of a string.
pub open spec fn str_text(s: String) -> Seq<u8> {
    encode_utf8(s@)
}

/// The opening text of a delimiter.
pub open spec fn open_text(d: Delimiter) -> Seq<u8> {
    match d {
        Delimiter::Parenthesis => "(".spec_bytes(),
        Delimiter::Brace => "{".spec_bytes(),
        Delimiter::Bracket => "[".spec_bytes(),
        Delimiter::Invisible => Seq::empty(),
    }
}

/// The closing text of a delimiter.
pub open spec fn close_text(d: Delimiter) -> Seq<u8> {
    match d {
        Delimiter::Parenthesis => ")".spec_bytes(),
        Delimiter::Brace => "}".spec_bytes(),
        Delimiter::Bracket => "]".spec_bytes(),
        Delimiter::Invisible => Seq::empty(),
    }
}

/// The text of a token tree: an identifier, punctuation character or literal as it is
/// written; a group as its delimiters around the text of its stream.
pub open spec fn token_text(t: TokenTree) -> Seq<u8>
    decreases t, 0nat,
{
    match t {
        TokenTree::Ident(s) => str_text(s),
        TokenTree::Punct { ch, .. } => char_text(ch),
        TokenTree::Literal(s) => str_text(s),
        TokenTree::Group { delimiter, stream } => open_text(delimiter) + stream_text(stream@, stream@.len())
            + close_text(delimiter),
    }
}

/// The first `n` token trees of `ts` as text: each after a space, except the first and
/// those that follow a joint punctuation character.
pub open spec fn stream_text(ts: Seq<TokenTree>, n: nat) -> Seq<u8>
    decreases ts, n,
{
    if n == 0 || n > ts.len() {
        Seq::empty()
    } else {
        let sep: Seq<u8> = if n > 1 && !(ts[n - 2] matches TokenTree::Punct { joint: true, .. }) {
            " ".spec_bytes()
        } else {
            Seq::empty()
        };
        stream_text(ts, (n - 1) as nat) + sep + token_text(ts[n - 1])
    }
}

/// Appends the text of a token tree.
pub fn push_token(out: &mut CodeBuf, t: &TokenTree)
    requires
        old(out).wf(),
    ensures
        final(out).wf(),
        final(out).text() == old(out).text() + token_text(*t),
    decreases *t, 0nat,
{
    match t {
        TokenTree::Ident(s) => out.push(s.as_str()),
        TokenTree::Punct { ch, .. } => out.push_char(*ch),
        TokenTree::Literal(s) => out.push(s.as_str()),
        TokenTree::Group { delimiter, stream } => {
            let ghost before = out.text();
            match delimiter {
                Delimiter::Parenthesis => out.push("("),
                Delimiter::Brace => out.push("{"),
                Delimiter::Bracket => out.push("["),
                Delimiter::Invisible => {},
            }
            push_stream(out, stream);
            match delimiter {
                Delimiter::Parenthesis => out.push(")"),
                Delimiter::Brace => out.push("}"),
                Delimiter::Bracket => out.push("]"),
                Delimiter::Invisible => {},
            }
            assert(out.text() =~= before + token_text(*t));
        },
    }
}

/// Appends the text of a stream of token trees.
pub fn push_stream(out: &mut CodeBuf, ts: &Vec<TokenTree>)
    requires
        old(out).wf(),
    ensures
        final(out).wf(),
        final(out).text() == old(out).text() + stream_text(ts@, ts@.len()),
    decreases *ts, 1nat,
{
    let ghost start = out.text();
    let mut i: usize = 0;
    while i < ts.len()
        invariant
            i <= ts.len(),
            out.wf(),
            out.text() == start + stream_text(ts@, i as nat),
        decreases ts.len() - i,
    {
        if i > 0 {
            let joint = match &ts[i - 1] {
                TokenTree::Punct { joint, .. } => *joint,
                _ => false,
            };
            if !joint {
                out.push(" ");
            }
        }
        push_token(out, &ts[i]);
        i = i + 1;
        assert(out.text() =~= start + stream_text(ts@, i as nat));
    }
}

/// The text of a stream of token trees.
pub fn tts_to_string(ts: &Vec<TokenTree>) -> (s: String)
    ensures
        encode_utf8(s@) == stream_text(ts@, ts@.len()),
{
    let mut out = CodeBuf::new();
    push_stream(&mut out, ts);
    assert(out.text() =~= stream_text(ts@, ts@.len()));
    out.into_string()
}

} // verus!
