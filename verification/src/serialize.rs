use vstd::prelude::*;

use crate::format::{
    escape_byte, escape_byte_into, escape_bytes, format_decimal, int_text, is_plain,
    lemma_escape_plain_run, quoted, scalar_len, signed_decimal, spaces, utf8_scalar_len,
};
use crate::error::WriteError;
use crate::write::{wrapped_count, ArrayWriter, SizeCounter, Write};
use crate::text::string_from_utf8;
use core::convert::Infallible;
use vstd::string::StringSliceAdditionalSpecFns;
use vstd::utf8::{encode_utf8, valid_utf8};

verus! {

/// The kind of an open container.
#[derive(Copy, Clone, PartialEq, Eq, Debug, Structural)]
pub enum ScopeKind {
    Array,
    Object,
}

/// One open container of the serializer.
#[derive(Copy, Clone, PartialEq, Eq, Debug, Structural)]
pub struct Scope {
    pub kind: ScopeKind,
    /// At least one element has been written.
    pub tail: bool,
    /// An object key was just placed; the next write is its value.
    pub key: bool,
}

/// `a` is a prefix of `b`.
pub open spec fn prefix_of(a: Seq<u8>, b: Seq<u8>) -> bool {
    a.len() <= b.len() && a == b.take(a.len() as int)
}

pub proof fn lemma_prefix_trans(a: Seq<u8>, b: Seq<u8>, c: Seq<u8>)
    requires
        prefix_of(a, b),
        prefix_of(b, c),
    ensures
        prefix_of(a, c),
{
    assert(c.take(a.len() as int) =~= c.take(b.len() as int).take(a.len() as int));
}

pub proof fn lemma_prefix_refl(a: Seq<u8>)
    ensures
        prefix_of(a, a),
{
    assert(a.take(a.len() as int) =~= a);
}

pub proof fn lemma_prefix_of_append(a: Seq<u8>, b: Seq<u8>, c: Seq<u8>)
    requires
        prefix_of(a + b, c),
    ensures
        prefix_of(a, c),
{
    assert(prefix_of(a, a + b)) by {
        assert((a + b).take(a.len() as int) =~= a);
    }
    lemma_prefix_trans(a, a + b, c);
}

pub proof fn lemma_prefix_extend(a: Seq<u8>, x: Seq<u8>, y: Seq<u8>)
    requires
        prefix_of(x, y),
    ensures
        prefix_of(a + x, a + y),
{
    assert((a + y).take((a + x).len() as int) =~= a + x);
}

/// After a failed call, the sink holds the old output followed by a leading part of
/// what a successful call would have written.
pub open spec fn partly_wrote(old: Seq<u8>, new: Seq<u8>, expected: Seq<u8>) -> bool {
    old.len() <= new.len() && prefix_of(new, old + expected)
}

/// Separator and whitespace written before a value (or key) in the innermost open
/// container: a comma after a previous element, then, when pretty-printing, a space
/// after a key or a newline and indentation otherwise.
pub open spec fn element_prefix(scopes: Seq<Scope>, pp: nat) -> Seq<u8> {
    if scopes.len() == 0 {
        Seq::empty()
    } else {
        let s = scopes.last();
        let comma: Seq<u8> = if s.tail && !s.key {
            seq![0x2Cu8]
        } else {
            Seq::empty()
        };
        let ws: Seq<u8> = if pp > 0 {
            if s.key {
                seq![0x20u8]
            } else {
                seq![0x0Au8] + spaces(scopes.len() * pp)
            }
        } else {
            Seq::empty()
        };
        comma + ws
    }
}

/// The scope stack after a complete value has been written.
pub open spec fn after_element(scopes: Seq<Scope>) -> Seq<Scope> {
    if scopes.len() == 0 {
        scopes
    } else {
        scopes.update(
            scopes.len() - 1,
            Scope { kind: scopes.last().kind, tail: true, key: false },
        )
    }
}

/// Whitespace written before a closing bracket when pretty-printing a non-empty container.
pub open spec fn closing_prefix(scopes: Seq<Scope>, pp: nat) -> Seq<u8> {
    if pp > 0 && scopes.len() > 0 && scopes.last().tail {
        seq![0x0Au8] + spaces(((scopes.len() - 1) * pp) as nat)
    } else {
        Seq::empty()
    }
}

/// The scope stack after a closing bracket: the innermost scope is gone and the
/// container counts as a complete element of its parent.
pub open spec fn after_close(scopes: Seq<Scope>) -> Seq<Scope> {
    if scopes.len() > 0 {
        after_element(scopes.drop_last())
    } else {
        scopes
    }
}

/// A key may be placed: the innermost scope is an object that is not waiting for a value.
pub open spec fn key_allowed(scopes: Seq<Scope>) -> bool {
    scopes.len() > 0 && scopes.last().kind == ScopeKind::Object && !scopes.last().key
}

/// The scope stack after a key has been written.
pub open spec fn after_key(scopes: Seq<Scope>) -> Seq<Scope> {
    scopes.update(scopes.len() - 1, Scope { kind: ScopeKind::Object, tail: true, key: true })
}

/// The text `null`.
pub open spec fn null_text() -> Seq<u8> {
    seq![0x6Eu8, 0x75u8, 0x6Cu8, 0x6Cu8]
}

/// The text `true` or `false`.
pub open spec fn bool_text(v: bool) -> Seq<u8> {
    if v {
        seq![0x74u8, 0x72u8, 0x75u8, 0x65u8]
    } else {
        seq![0x66u8, 0x61u8, 0x6Cu8, 0x73u8, 0x65u8]
    }
}

/// Printable ASCII other than `"` and `\`.
fn is_plain_byte(b: u8) -> (r: bool)
    ensures
        r == is_plain(b),
{
    0x20 <= b && b <= 0x7E && b != 0x22 && b != 0x5C
}

/// Error type for the serializer.
#[derive(Debug)]
pub enum SerializeError<E> {
    /// A write error from the sink.
    Write(E),
    /// Nesting exceeded the `DEPTH` of the serializer.
    DepthExceeded,
    /// `member_key` / `member_key_bytes` was called outside an object scope,
    /// or was called twice without an intervening value.
    InvalidState,
}

impl<E> From<E> for SerializeError<E> {
    /// A sink's error, as a serialization error.
    fn from(e: E) -> (r: Self) {
        SerializeError::Write(e)
    }
}

impl<E> vstd::std_specs::convert::FromSpecImpl<E> for SerializeError<E> {
    open spec fn obeys_from_spec() -> bool {
        true
    }

    open spec fn from_spec(e: E) -> Self {
        SerializeError::Write(e)
    }
}

/// JSON serializer. Generic over the write sink `W` and the maximum nesting depth `DEPTH`.
pub struct Serializer<W, const DEPTH: usize> {
    writer: W,
    scopes: Vec<Scope>,
    /// Pretty-print indent width in spaces. `0` = compact output.
    pub pp: usize,
}

impl<W: Write, const DEPTH: usize> Serializer<W, DEPTH> {
    /// Everything the sink has accepted.
    pub closed spec fn output(&self) -> Seq<u8> {
        self.writer.sink()
    }

    /// The open containers, outermost first.
    pub closed spec fn scopes(&self) -> Seq<Scope> {
        self.scopes@
    }

    /// The indent width (the public `pp` field).
    pub closed spec fn indent(&self) -> nat {
        self.pp as nat
    }

    /// The sink.
    pub closed spec fn sink_writer(&self) -> W {
        self.writer
    }

    pub closed spec fn wf(&self) -> bool {
        self.scopes@.len() <= DEPTH
    }

    /// The sink takes every write after which it holds at most `total` bytes.
    pub closed spec fn accepts_up_to(&self, total: nat) -> bool {
        self.writer.accepts_up_to(total)
    }

    /// Wherever the sink of `old` takes every write up to some total of at least `len`
    /// bytes, the call succeeded and the sink of `new` still takes them.
    pub open spec fn goes_through(old: Self, new: Self, ok: bool, len: nat) -> bool {
        forall|total: nat|
            #[trigger] old.accepts_up_to(total) && len <= total ==> ok && new.accepts_up_to(total)
    }

    /// The sink refuses every write after which it would hold more than `total` bytes.
    pub closed spec fn refuses_past(&self, total: nat) -> bool {
        self.writer.refuses_past(total)
    }

    /// Wherever the sink of `old` refuses writes past some total it has not passed yet,
    /// the call failed if its text (ending at `len`) went past that total, and after a
    /// success the sink of `new` still refuses such writes.
    pub open spec fn stops_past(old: Self, new: Self, ok: bool, len: nat) -> bool {
        forall|total: nat|
            #[trigger] old.refuses_past(total) && old.output().len() <= total ==> (total < len
                ==> !ok) && (ok ==> new.refuses_past(total))
    }

    /// A failure in the sink passes on one of the errors the sink may give.
    pub open spec fn sink_error(r: Result<(), SerializeError<W::Error>>) -> bool {
        r matches Err(SerializeError::Write(e)) ==> W::may_fail_with(e)
    }

    /// A failed call wrote at most the separator of the element: none of its own text.
    pub open spec fn text_whole(old: Self, new: Self, r: Result<(), SerializeError<W::Error>>) -> bool {
        r is Err ==> prefix_of(new.output(), old.output() + element_prefix(old.scopes(), old.indent()))
    }

    /// `goes_through` for a call that writes the separator of an element and then `text`.
    pub open spec fn element_goes_through(old: Self, new: Self, ok: bool, text: Seq<u8>) -> bool {
        Self::goes_through(
            old,
            new,
            ok,
            old.output().len() + element_prefix(old.scopes(), old.indent()).len() + text.len(),
        )
    }

    pub fn new(writer: W) -> (s: Self)
        ensures
            s.wf(),
            s.output() == writer.sink(),
            s.sink_writer() == writer,
            s.scopes() == Seq::<Scope>::empty(),
            s.indent() == 0,
            forall|total: nat| #[trigger] s.accepts_up_to(total) == writer.accepts_up_to(total),
            forall|total: nat| #[trigger] s.refuses_past(total) == writer.refuses_past(total),
    {
        Serializer { writer, scopes: Vec::new(), pp: 0 }
    }

    pub fn with_pp(writer: W, indent: usize) -> (s: Self)
        ensures
            s.wf(),
            s.output() == writer.sink(),
            s.sink_writer() == writer,
            s.scopes() == Seq::<Scope>::empty(),
            s.indent() == indent,
            forall|total: nat| #[trigger] s.accepts_up_to(total) == writer.accepts_up_to(total),
            forall|total: nat| #[trigger] s.refuses_past(total) == writer.refuses_past(total),
    {
        let mut s = Self::new(writer);
        s.pp = indent;
        s
    }

    /// Consume the serializer and return the inner writer.
    pub fn into_writer(self) -> (w: W)
        ensures
            w == self.sink_writer(),
            w.sink() == self.output(),
    {
        self.writer
    }

    // ---- internal helpers ----

    /// Writes `b`, which must be the next part of `goal`.
    fn write(&mut self, b: &[u8], Ghost(goal): Ghost<Seq<u8>>) -> (r: Result<
        (),
        SerializeError<W::Error>,
    >)
        requires
            prefix_of(old(self).output() + b@, goal),
        ensures
            final(self).scopes() == old(self).scopes(),
            final(self).indent() == old(self).indent(),
            r is Ok ==> final(self).output() == old(self).output() + b@,
            r is Err ==> final(self).output() == old(self).output(),
            r is Err ==> prefix_of(final(self).output(), goal),
            r matches Err(e) ==> e is Write,
            Self::sink_error(r),
            Self::goes_through(*old(self), *final(self), r is Ok, goal.len()),
            Self::stops_past(*old(self), *final(self), r is Ok, old(self).output().len() + b@.len()),
    {
        proof {
            lemma_prefix_of_append(old(self).output(), b@, goal);
        }
        match self.writer.write_bytes(b) {
            Ok(()) => Ok(()),
            Err(e) => Err(SerializeError::Write(e)),
        }
    }

    /// Writes `n` spaces, one at a time.
    fn write_spaces(&mut self, n_groups: usize, width: usize, Ghost(goal): Ghost<Seq<u8>>) -> (r:
        Result<(), SerializeError<W::Error>>)
        requires
            prefix_of(old(self).output() + spaces((n_groups * width) as nat), goal),
        ensures
            final(self).scopes() == old(self).scopes(),
            final(self).indent() == old(self).indent(),
            r is Ok ==> final(self).output() == old(self).output() + spaces(
                (n_groups * width) as nat,
            ),
            r is Err ==> partly_wrote(
                old(self).output(),
                final(self).output(),
                spaces((n_groups * width) as nat),
            ),
            r is Err ==> prefix_of(final(self).output(), goal),
            r matches Err(e) ==> e is Write,
            Self::sink_error(r),
            Self::goes_through(*old(self), *final(self), r is Ok, goal.len()),
            Self::stops_past(
                *old(self),
                *final(self),
                r is Ok,
                old(self).output().len() + spaces((n_groups * width) as nat).len(),
            ),
    {
        let ghost start = self.output();
        let ghost total = spaces((n_groups * width) as nat);
        let mut g: usize = 0;
        while g < n_groups
            invariant
                0 <= g <= n_groups,
                prefix_of(start + total, goal),
                start == old(self).output(),
                total == spaces((n_groups * width) as nat),
                self.output() == start + spaces((g * width) as nat),
                self.scopes() == old(self).scopes(),
                self.indent() == old(self).indent(),
                forall|total: nat|
                    #[trigger] old(self).accepts_up_to(total) && goal.len() <= total
                        ==> self.accepts_up_to(total),
                forall|total: nat|
                    #[trigger] old(self).refuses_past(total) && old(self).output().len() <= total
                        ==> self.refuses_past(total) && self.output().len() <= total,
            decreases n_groups - g,
        {
            let mut k: usize = 0;
            while k < width
                invariant
                    0 <= g < n_groups,
                    0 <= k <= width,
                    prefix_of(start + total, goal),
                    start == old(self).output(),
                    total == spaces((n_groups * width) as nat),
                    self.output() == start + spaces((g * width + k) as nat),
                    self.scopes() == old(self).scopes(),
                    self.indent() == old(self).indent(),
                    forall|total: nat|
                        #[trigger] old(self).accepts_up_to(total) && goal.len() <= total
                            ==> self.accepts_up_to(total),
                    forall|total: nat|
                        #[trigger] old(self).refuses_past(total) && old(self).output().len() <= total
                            ==> self.refuses_past(total) && self.output().len() <= total,
                decreases width - k,
            {
                proof {
                    assert((g + 1) * width == g * width + width) by (nonlinear_arith);
                    assert(g + 1 <= n_groups);
                    assert((g + 1) * width <= n_groups * width) by (nonlinear_arith)
                        requires
                            g + 1 <= n_groups,
                    ;
                    assert(spaces((g * width + k) as nat) + seq![0x20u8] =~= spaces(
                        (g * width + k + 1) as nat,
                    ));
                    assert(total.take(g * width + k + 1) =~= spaces((g * width + k + 1) as nat));
                    assert(start + spaces((g * width + k + 1) as nat) =~= (start + total).take(
                        start.len() + g * width + k + 1,
                    ));
                    assert(prefix_of(self.output() + seq![0x20u8], goal)) by {
                        assert(self.output() + seq![0x20u8] =~= start + spaces(
                            (g * width + k + 1) as nat,
                        ));
                        assert((start + total).take(start.len() + g * width + k + 1) =~= goal.take(
                            start.len() + g * width + k + 1,
                        ));
                    }
                }
                let sp: [u8; 1] = [0x20u8];
                assert(sp@ =~= seq![0x20u8]);
                let r = self.write(&sp, Ghost(goal));
                if r.is_err() {
                    proof {
                        assert((g + 1) * width <= n_groups * width) by (nonlinear_arith)
                            requires
                                g + 1 <= n_groups,
                        ;
                        assert((g + 1) * width == g * width + width) by (nonlinear_arith);
                        assert(start + spaces((g * width + k) as nat) =~= (start + total).take(
                            start.len() + g * width + k,
                        ));
                        assert(prefix_of(self.output(), start + total));
                        lemma_prefix_trans(self.output(), start + total, goal);
                    }
                    return r;
                }
                assert(self.output() =~= start + spaces((g * width + k + 1) as nat));
                k = k + 1;
            }
            proof {
                assert((g + 1) * width == g * width + width) by (nonlinear_arith);
            }
            g = g + 1;
        }
        Ok(())
    }
    /// Writes the separator and whitespace that precede a value or key.
    fn element_begin(&mut self, Ghost(goal): Ghost<Seq<u8>>) -> (r: Result<
        (),
        SerializeError<W::Error>,
    >)
        requires
            prefix_of(old(self).output() + element_prefix(old(self).scopes(), old(self).indent()), goal),
        ensures
            final(self).scopes() == old(self).scopes(),
            final(self).indent() == old(self).indent(),
            r is Ok ==> final(self).output() == old(self).output() + element_prefix(
                old(self).scopes(),
                old(self).indent(),
            ),
            r is Err ==> prefix_of(final(self).output(), goal),
            r is Err ==> prefix_of(
                final(self).output(),
                old(self).output() + element_prefix(old(self).scopes(), old(self).indent()),
            ),
            r is Err ==> old(self).output().len() <= final(self).output().len(),
            r matches Err(e) ==> e is Write,
            Self::sink_error(r),
            Self::goes_through(*old(self), *final(self), r is Ok, goal.len()),
            Self::goes_through(
                *old(self),
                *final(self),
                r is Ok,
                old(self).output().len() + element_prefix(old(self).scopes(), old(self).indent()).len(),
            ),
            Self::stops_past(
                *old(self),
                *final(self),
                r is Ok,
                old(self).output().len() + element_prefix(old(self).scopes(), old(self).indent()).len(),
            ),
    {
        let ghost own = self.output() + element_prefix(self.scopes(), self.indent());
        proof {
            lemma_prefix_refl(own);
        }
        let r = self.write_separator(Ghost(own));
        proof {
            if r.is_err() {
                lemma_prefix_trans(self.output(), own, goal);
            }
        }
        r
    }

    /// Writes the separator and whitespace that precede a value or key, as the next part
    /// of `goal`.
    fn write_separator(&mut self, Ghost(goal): Ghost<Seq<u8>>) -> (r: Result<
        (),
        SerializeError<W::Error>,
    >)
        requires
            prefix_of(old(self).output() + element_prefix(old(self).scopes(), old(self).indent()), goal),
        ensures
            final(self).scopes() == old(self).scopes(),
            final(self).indent() == old(self).indent(),
            r is Ok ==> final(self).output() == old(self).output() + element_prefix(
                old(self).scopes(),
                old(self).indent(),
            ),
            r is Err ==> prefix_of(final(self).output(), goal),
            r is Err ==> old(self).output().len() <= final(self).output().len(),
            r matches Err(e) ==> e is Write,
            Self::sink_error(r),
            Self::goes_through(*old(self), *final(self), r is Ok, goal.len()),
            Self::stops_past(
                *old(self),
                *final(self),
                r is Ok,
                old(self).output().len() + element_prefix(old(self).scopes(), old(self).indent()).len(),
            ),
    {
        let n = self.scopes.len();
        if n == 0 {
            assert(old(self).output() + element_prefix(old(self).scopes(), old(self).indent())
                =~= old(self).output());
            return Ok(());
        }
        let s = self.scopes[n - 1];
        let ghost out0 = self.output();
        let ghost comma: Seq<u8> = if s.tail && !s.key { seq![0x2Cu8] } else { Seq::empty() };
        let ghost ws: Seq<u8> = if self.pp > 0 {
            if s.key { seq![0x20u8] } else { seq![0x0Au8] + spaces((n * self.pp) as nat) }
        } else {
            Seq::empty()
        };
        assert(element_prefix(self.scopes(), self.indent()) =~= comma + ws);
        assert(out0 + (comma + ws) =~= (out0 + comma) + ws);
        if s.tail && !s.key {
            let c: [u8; 1] = [0x2Cu8];
            assert(c@ =~= comma);
            proof {
                lemma_prefix_of_append(out0 + comma, ws, goal);
            }
            self.write(&c, Ghost(goal))?;
        } else {
            assert(out0 + comma =~= out0);
        }
        let ghost out1 = self.output();
        assert(out1 == out0 + comma);
        if self.pp > 0 {
            if s.key {
                let sp: [u8; 1] = [0x20u8];
                assert(sp@ =~= ws);
                self.write(&sp, Ghost(goal))?;
            } else {
                let nl: [u8; 1] = [0x0Au8];
                assert(nl@ =~= seq![0x0Au8]);
                assert(out1 + ws =~= (out1 + seq![0x0Au8]) + spaces((n * self.pp) as nat));
                proof {
                    lemma_prefix_of_append(out1 + seq![0x0Au8], spaces((n * self.pp) as nat), goal);
                }
                self.write(&nl, Ghost(goal))?;
                let pp = self.pp;
                let r = self.write_spaces(n, pp, Ghost(goal));
                if r.is_err() {
                    return r;
                }
                assert(self.output() =~= out1 + ws);
            }
        } else {
            assert(out1 + ws =~= out1);
        }
        Ok(())
    }

    /// Marks the innermost scope as holding at least one complete element.
    fn element_end(&mut self)
        ensures
            final(self).scopes() == after_element(old(self).scopes()),
            final(self).output() == old(self).output(),
            final(self).indent() == old(self).indent(),
            final(self).sink_writer() == old(self).sink_writer(),
    {
        let n = self.scopes.len();
        if n > 0 {
            let kind = self.scopes[n - 1].kind;
            self.scopes.set(n - 1, Scope { kind, tail: true, key: false });
        }
    }

    /// What `value_bytes` promises: the prefix and `text` are written and the value
    /// is complete, or the call failed in the sink after a leading part of them.
    pub open spec fn value_post(
        old: Self,
        new: Self,
        r: Result<(), SerializeError<W::Error>>,
        text: Seq<u8>,
    ) -> bool {
        let expected = element_prefix(old.scopes(), old.indent()) + text;
        &&& new.wf()
        &&& new.indent() == old.indent()
        &&& r is Ok ==> new.output() == old.output() + expected && new.scopes() == after_element(
            old.scopes(),
        )
        &&& r is Err ==> new.scopes() == old.scopes() && partly_wrote(
            old.output(),
            new.output(),
            expected,
        )
        &&& r matches Err(e) ==> e is Write
        &&& Self::sink_error(r)
        &&& Self::element_goes_through(old, new, r is Ok, text)
        &&& Self::stops_past(old, new, r is Ok, old.output().len() + expected.len())
    }

    /// Writes one complete value whose text is `text`.
    fn value_bytes(&mut self, text: &[u8]) -> (r: Result<(), SerializeError<W::Error>>)
        requires
            old(self).wf(),
        ensures
            Self::value_post(*old(self), *final(self), r, text@),
            Self::text_whole(*old(self), *final(self), r),
    {
        let ghost out0 = self.output();
        let ghost pre = element_prefix(self.scopes(), self.indent());
        let ghost goal = out0 + (pre + text@);
        assert(out0 + pre + text@ =~= goal);
        assert(goal.take(goal.len() as int) =~= goal);
        proof {
            lemma_prefix_of_append(out0 + pre, text@, goal);
        }
        let r = self.element_begin(Ghost(goal));
        if r.is_err() {
            return r;
        }
        let r = self.write(text, Ghost(goal));
        if r.is_err() {
            proof {
                lemma_prefix_refl(out0 + pre);
            }
            return r;
        }
        self.element_end();
        assert(self.output() =~= goal);
        Ok(())
    }

    // ---- public API ----

    /// Writes `null`.
    pub fn null(&mut self) -> (r: Result<(), SerializeError<W::Error>>)
        requires
            old(self).wf(),
        ensures
            Self::value_post(*old(self), *final(self), r, null_text()),
            Self::text_whole(*old(self), *final(self), r),
    {
        let t: [u8; 4] = [0x6Eu8, 0x75u8, 0x6Cu8, 0x6Cu8];
        assert(t@ =~= null_text());
        self.value_bytes(&t)
    }

    /// Writes `true` or `false`.
    pub fn bool_val(&mut self, v: bool) -> (r: Result<(), SerializeError<W::Error>>)
        requires
            old(self).wf(),
        ensures
            Self::value_post(*old(self), *final(self), r, bool_text(v)),
            Self::text_whole(*old(self), *final(self), r),
    {
        if v {
            let t: [u8; 4] = [0x74u8, 0x72u8, 0x75u8, 0x65u8];
            assert(t@ =~= bool_text(v));
            self.value_bytes(&t)
        } else {
            let t: [u8; 5] = [0x66u8, 0x61u8, 0x6Cu8, 0x73u8, 0x65u8];
            assert(t@ =~= bool_text(v));
            self.value_bytes(&t)
        }
    }

    /// Write a pre-formatted number string verbatim (no escaping).
    /// Use this for floats: format the number yourself and pass the text here.
    pub fn number_raw(&mut self, raw: &str) -> (r: Result<(), SerializeError<W::Error>>)
        requires
            old(self).wf(),
        ensures
            Self::value_post(*old(self), *final(self), r, raw.spec_bytes()),
            Self::text_whole(*old(self), *final(self), r),
    {
        self.value_bytes(raw.as_bytes())
    }

    /// Writes an integer given as sign and magnitude.
    pub(crate) fn integer_parts(&mut self, neg: bool, mag: u128) -> (r: Result<
        (),
        SerializeError<W::Error>,
    >)
        requires
            old(self).wf(),
        ensures
            Self::value_post(*old(self), *final(self), r, signed_decimal(neg, mag as nat)),
            Self::text_whole(*old(self), *final(self), r),
    {
        let (buf, start) = format_decimal(neg, mag);
        self.value_bytes(&buf[start..40])
    }

    /// Writes a signed 128-bit integer.
    pub(crate) fn integer_i128(&mut self, v: i128) -> (r: Result<(), SerializeError<W::Error>>)
        requires
            old(self).wf(),
        ensures
            Self::value_post(*old(self), *final(self), r, int_text(v as int)),
            Self::text_whole(*old(self), *final(self), r),
    {
        if v < 0 {
            let mag: u128 = if v == i128::MIN {
                0x8000_0000_0000_0000_0000_0000_0000_0000u128
            } else {
                (-v) as u128
            };
            self.integer_parts(true, mag)
        } else {
            self.integer_parts(false, v as u128)
        }
    }

    /// Writes an integer.
    pub fn integer(&mut self, v: i64) -> (r: Result<(), SerializeError<W::Error>>)
        requires
            old(self).wf(),
        ensures
            Self::value_post(*old(self), *final(self), r, int_text(v as int)),
            Self::text_whole(*old(self), *final(self), r),
    {
        self.integer_i128(v as i128)
    }

    /// Opens a new scope, or fails when `DEPTH` scopes are already open.
    fn push_scope(&mut self, kind: ScopeKind) -> (r: Result<(), SerializeError<W::Error>>)
        requires
            old(self).wf(),
        ensures
            final(self).wf(),
            final(self).output() == old(self).output(),
            final(self).sink_writer() == old(self).sink_writer(),
            final(self).indent() == old(self).indent(),
            r is Ok <==> old(self).scopes().len() < DEPTH,
            r is Ok ==> final(self).scopes() == old(self).scopes().push(
                Scope { kind, tail: false, key: false },
            ),
            r is Err ==> final(self).scopes() == old(self).scopes(),
            r matches Err(e) ==> e is DepthExceeded,
    {
        if self.scopes.len() >= DEPTH {
            return Err(SerializeError::DepthExceeded);
        }
        self.scopes.push(Scope { kind, tail: false, key: false });
        Ok(())
    }

    /// Closes the innermost scope, if any.
    fn pop_scope(&mut self)
        ensures
            final(self).scopes() == if old(self).scopes().len() > 0 {
                old(self).scopes().drop_last()
            } else {
                old(self).scopes()
            },
            final(self).output() == old(self).output(),
            final(self).sink_writer() == old(self).sink_writer(),
            final(self).indent() == old(self).indent(),
    {
        if self.scopes.len() > 0 {
            let _ = self.scopes.pop();
        }
    }

    /// Opens a container with the bracket `open`.
    fn container_begin(&mut self, open: u8, kind: ScopeKind) -> (r: Result<
        (),
        SerializeError<W::Error>,
    >)
        requires
            old(self).wf(),
        ensures
            Self::begin_post(*old(self), *final(self), r, open, kind),
    {
        let ghost out0 = self.output();
        let ghost pre = element_prefix(self.scopes(), self.indent());
        let ghost goal = out0 + (pre + seq![open]);
        assert(out0 + pre + seq![open] =~= goal);
        assert(goal.take(goal.len() as int) =~= goal);
        proof {
            lemma_prefix_of_append(out0 + pre, seq![open], goal);
        }
        let r = self.element_begin(Ghost(goal));
        if r.is_err() {
            return r;
        }
        let b: [u8; 1] = [open];
        assert(b@ =~= seq![open]);
        let r = self.write(&b, Ghost(goal));
        if r.is_err() {
            return r;
        }
        assert(self.output() =~= goal);
        self.push_scope(kind)
    }

    /// What opening a container promises: the prefix and bracket are written and a
    /// new scope is open; or, with `DEPTH` scopes already open, the same bytes are
    /// written and `DepthExceeded` is returned; or the sink failed part way.
    pub open spec fn begin_post(
        old: Self,
        new: Self,
        r: Result<(), SerializeError<W::Error>>,
        open: u8,
        kind: ScopeKind,
    ) -> bool {
        let expected = element_prefix(old.scopes(), old.indent()) + seq![open];
        &&& new.wf()
        &&& new.indent() == old.indent()
        &&& r is Ok ==> old.scopes().len() < DEPTH && new.output() == old.output() + expected
            && new.scopes() == old.scopes().push(Scope { kind, tail: false, key: false })
        &&& r is Err ==> new.scopes() == old.scopes()
        &&& r matches Err(e) ==> (e is Write && partly_wrote(old.output(), new.output(), expected))
            || (e is DepthExceeded && old.scopes().len() >= DEPTH && new.output() == old.output()
            + expected)
        &&& !(r matches Err(e) && e is InvalidState)
        &&& Self::sink_error(r)
        &&& Self::stops_past(
            old,
            new,
            !(r matches Err(e) && e is Write),
            old.output().len() + expected.len(),
        )
        &&& old.scopes().len() < DEPTH ==> Self::element_goes_through(old, new, r is Ok, seq![open])
        &&& old.scopes().len() >= DEPTH ==> Self::element_goes_through(
            old,
            new,
            r matches Err(e) && e is DepthExceeded,
            seq![open],
        )
    }

    /// Closes the innermost container with the bracket `close`.
    fn container_end(&mut self, close: u8) -> (r: Result<(), SerializeError<W::Error>>)
        requires
            old(self).wf(),
        ensures
            Self::end_post(*old(self), *final(self), r, close),
    {
        let ghost out0 = self.output();
        let ghost pre = closing_prefix(self.scopes(), self.indent());
        let ghost goal = out0 + (pre + seq![close]);
        assert(out0 + pre + seq![close] =~= goal);
        assert(goal.take(goal.len() as int) =~= goal);
        let n = self.scopes.len();
        let tail = if n > 0 {
            self.scopes[n - 1].tail
        } else {
            false
        };
        if self.pp > 0 && tail {
            let nl: [u8; 1] = [0x0Au8];
            assert(nl@ =~= seq![0x0Au8]);
            let ghost sp = spaces(((n - 1) * self.pp) as nat);
            assert(pre =~= seq![0x0Au8] + sp);
            assert(out0 + seq![0x0Au8] + sp + seq![close] =~= goal);
            proof {
                lemma_prefix_of_append(out0 + seq![0x0Au8] + sp, seq![close], goal);
                lemma_prefix_of_append(out0 + seq![0x0Au8], sp, goal);
            }
            let r = self.write(&nl, Ghost(goal));
            if r.is_err() {
                return r;
            }
            let pp = self.pp;
            let r = self.write_spaces(n - 1, pp, Ghost(goal));
            if r.is_err() {
                return r;
            }
            assert(self.output() =~= out0 + pre);
        } else {
            assert(pre =~= Seq::<u8>::empty());
            assert(out0 + pre =~= out0);
        }
        let b: [u8; 1] = [close];
        assert(b@ =~= seq![close]);
        let r = self.write(&b, Ghost(goal));
        if r.is_err() {
            return r;
        }
        assert(self.output() =~= goal);
        self.pop_scope();
        self.element_end();
        Ok(())
    }

    /// What closing a container promises: the closing whitespace and bracket are
    /// written and the innermost scope is closed, or the sink failed part way.
    pub open spec fn end_post(
        old: Self,
        new: Self,
        r: Result<(), SerializeError<W::Error>>,
        close: u8,
    ) -> bool {
        let expected = closing_prefix(old.scopes(), old.indent()) + seq![close];
        &&& new.wf()
        &&& new.indent() == old.indent()
        &&& r is Ok ==> new.output() == old.output() + expected && new.scopes() == after_close(
            old.scopes(),
        )
        &&& r is Err ==> new.scopes() == old.scopes() && partly_wrote(
            old.output(),
            new.output(),
            expected,
        )
        &&& r matches Err(e) ==> e is Write
        &&& Self::sink_error(r)
        &&& Self::goes_through(old, new, r is Ok, old.output().len() + expected.len())
        &&& Self::stops_past(old, new, r is Ok, old.output().len() + expected.len())
    }

    /// Writes `[` and opens an array scope.
    pub fn array_begin(&mut self) -> (r: Result<(), SerializeError<W::Error>>)
        requires
            old(self).wf(),
        ensures
            Self::begin_post(*old(self), *final(self), r, 0x5Bu8, ScopeKind::Array),
    {
        self.container_begin(0x5B, ScopeKind::Array)
    }

    /// Writes `]` and closes the innermost scope.
    pub fn array_end(&mut self) -> (r: Result<(), SerializeError<W::Error>>)
        requires
            old(self).wf(),
        ensures
            Self::end_post(*old(self), *final(self), r, 0x5Du8),
    {
        self.container_end(0x5D)
    }

    /// Writes `{` and opens an object scope.
    pub fn object_begin(&mut self) -> (r: Result<(), SerializeError<W::Error>>)
        requires
            old(self).wf(),
        ensures
            Self::begin_post(*old(self), *final(self), r, 0x7Bu8, ScopeKind::Object),
    {
        self.container_begin(0x7B, ScopeKind::Object)
    }

    /// Writes `}` and closes the innermost scope.
    pub fn object_end(&mut self) -> (r: Result<(), SerializeError<W::Error>>)
        requires
            old(self).wf(),
        ensures
            Self::end_post(*old(self), *final(self), r, 0x7Du8),
    {
        self.container_end(0x7D)
    }

    /// Writes `bytes` as a quoted JSON string.
    #[verifier::spinoff_prover]
    #[verifier::rlimit(40)]
    fn write_string_escaped(&mut self, bytes: &[u8], Ghost(goal): Ghost<Seq<u8>>) -> (r: Result<
        (),
        SerializeError<W::Error>,
    >)
        requires
            prefix_of(old(self).output() + quoted(bytes@), goal),
        ensures
            final(self).scopes() == old(self).scopes(),
            final(self).indent() == old(self).indent(),
            r is Ok ==> final(self).output() == old(self).output() + quoted(bytes@),
            r is Err ==> prefix_of(final(self).output(), goal),
            r is Err ==> old(self).output().len() <= final(self).output().len(),
            r matches Err(e) ==> e is Write,
            Self::sink_error(r),
            Self::goes_through(*old(self), *final(self), r is Ok, goal.len()),
            Self::stops_past(
                *old(self),
                *final(self),
                r is Ok,
                old(self).output().len() + quoted(bytes@).len(),
            ),
    {
        let ghost out0 = self.output();
        let ghost target = out0 + quoted(bytes@);
        let q: [u8; 1] = [0x22u8];
        assert(q@ =~= seq![0x22u8]);
        assert(target =~= (out0 + seq![0x22u8]) + (escape_bytes(bytes@) + seq![0x22u8]));
        proof {
            lemma_prefix_of_append(out0 + seq![0x22u8], escape_bytes(bytes@) + seq![0x22u8], goal);
        }
        self.write(&q, Ghost(goal))?;
        assert(bytes@.skip(0) =~= bytes@);
        let mut i: usize = 0;
        while i < bytes.len()
            invariant
                0 <= i <= bytes.len(),
                self.output() + escape_bytes(bytes@.skip(i as int)) + seq![0x22u8] == target,
                target == out0 + quoted(bytes@),
                prefix_of(target, goal),
                out0.len() < self.output().len(),
                self.scopes() == old(self).scopes(),
                self.indent() == old(self).indent(),
                out0 == old(self).output(),
                forall|total: nat|
                    #[trigger] old(self).accepts_up_to(total) && goal.len() <= total
                        ==> self.accepts_up_to(total),
                forall|total: nat|
                    #[trigger] old(self).refuses_past(total) && old(self).output().len() <= total
                        ==> self.refuses_past(total) && self.output().len() <= total,
            decreases bytes.len() - i,
        {
            let ghost out1 = self.output();
            let ghost rest = bytes@.skip(i as int);
            let ch = bytes[i];
            assert(rest[0] == ch);
            if is_plain_byte(ch) {
                let start = i;
                while i < bytes.len() && is_plain_byte(bytes[i])
                    invariant
                        start <= i <= bytes.len(),
                        forall|t: int| start <= t < i ==> is_plain(#[trigger] bytes@[t]),
                    decreases bytes.len() - i,
                {
                    i = i + 1;
                }
                proof {
                    lemma_escape_plain_run(bytes@, start as int, i as int);
                    assert(target =~= (out1 + bytes@.subrange(start as int, i as int)) + (
                    escape_bytes(bytes@.skip(i as int)) + seq![0x22u8]));
                    lemma_prefix_refl(target);
                    lemma_prefix_of_append(
                        out1 + bytes@.subrange(start as int, i as int),
                        escape_bytes(bytes@.skip(i as int)) + seq![0x22u8],
                        target,
                    );
                    lemma_prefix_trans(
                        out1 + bytes@.subrange(start as int, i as int),
                        target,
                        goal,
                    );
                }
                let r = self.write(&bytes[start..i], Ghost(goal));
                if r.is_err() {
                    return r;
                }
            } else {
                let n = if ch >= 0x80 {
                    utf8_scalar_len(bytes, i)
                } else {
                    1
                };
                if ch >= 0x80 && n > 1 {
                    proof {
                        assert(scalar_len(rest) == n);
                        assert(rest.take(n as int) =~= bytes@.subrange(i as int, i + n));
                        assert(rest.skip(n as int) =~= bytes@.skip(i + n));
                        assert(escape_bytes(rest) == rest.take(n as int) + escape_bytes(
                            rest.skip(n as int),
                        ));
                        assert(target =~= (out1 + bytes@.subrange(i as int, i + n)) + (
                        escape_bytes(bytes@.skip(i + n)) + seq![0x22u8]));
                        lemma_prefix_refl(target);
                        lemma_prefix_of_append(
                            out1 + bytes@.subrange(i as int, i + n),
                            escape_bytes(bytes@.skip(i + n)) + seq![0x22u8],
                            target,
                        );
                        lemma_prefix_trans(out1 + bytes@.subrange(i as int, i + n), target, goal);
                    }
                    let r = self.write(&bytes[i..i + n], Ghost(goal));
                    if r.is_err() {
                        return r;
                    }
                    i = i + n;
                } else {
                    let (buf, len) = escape_byte_into(ch);
                    proof {
                        assert(rest.skip(1) =~= bytes@.skip(i + 1));
                        assert(escape_bytes(rest) == escape_byte(ch) + escape_bytes(rest.skip(1)));
                        assert(target =~= (out1 + escape_byte(ch)) + (escape_bytes(
                            bytes@.skip(i + 1),
                        ) + seq![0x22u8]));
                        lemma_prefix_refl(target);
                        lemma_prefix_of_append(
                            out1 + escape_byte(ch),
                            escape_bytes(bytes@.skip(i + 1)) + seq![0x22u8],
                            target,
                        );
                        lemma_prefix_trans(out1 + escape_byte(ch), target, goal);
                    }
                    let r = self.write(&buf[0..len], Ghost(goal));
                    if r.is_err() {
                        return r;
                    }
                    i = i + 1;
                }
            }
        }
        assert(bytes@.skip(i as int) =~= Seq::<u8>::empty());
        assert(escape_bytes(bytes@.skip(i as int)) =~= Seq::<u8>::empty());
        assert(self.output() + seq![0x22u8] =~= target);
        proof {
            lemma_prefix_refl(target);
            lemma_prefix_trans(self.output() + seq![0x22u8], target, goal);
        }
        self.write(&q, Ghost(goal))
    }

    /// Writes `b` as a JSON string value.
    ///
    /// Well-formed UTF-8 passes through; `"` and `\` and the control bytes are escaped,
    /// and every byte that is not part of well-formed UTF-8 becomes `\u00XX`, so the
    /// output is always valid UTF-8.
    pub fn string_bytes(&mut self, b: &[u8]) -> (r: Result<(), SerializeError<W::Error>>)
        requires
            old(self).wf(),
        ensures
            Self::value_post(*old(self), *final(self), r, quoted(b@)),
    {
        let ghost out0 = self.output();
        let ghost pre = element_prefix(self.scopes(), self.indent());
        let ghost goal = out0 + (pre + quoted(b@));
        assert(out0 + pre + quoted(b@) =~= goal);
        assert(goal.take(goal.len() as int) =~= goal);
        proof {
            lemma_prefix_of_append(out0 + pre, quoted(b@), goal);
        }
        let r = self.element_begin(Ghost(goal));
        if r.is_err() {
            return r;
        }
        let r = self.write_string_escaped(b, Ghost(goal));
        if r.is_err() {
            return r;
        }
        self.element_end();
        assert(self.output() =~= goal);
        Ok(())
    }

    /// Writes a string value.
    pub fn string(&mut self, s: &str) -> (r: Result<(), SerializeError<W::Error>>)
        requires
            old(self).wf(),
        ensures
            Self::value_post(*old(self), *final(self), r, quoted(s.spec_bytes())),
    {
        self.string_bytes(s.as_bytes())
    }

    /// Writes an object key followed by `:`.
    ///
    /// Fails with `InvalidState` (after writing the separator) unless the innermost
    /// scope is an object that is not already waiting for a value.
    pub fn member_key_bytes(&mut self, key: &[u8]) -> (r: Result<(), SerializeError<W::Error>>)
        requires
            old(self).wf(),
        ensures
            Self::key_post(*old(self), *final(self), r, key@),
    {
        let ghost out0 = self.output();
        let ghost pre = element_prefix(self.scopes(), self.indent());
        let ghost goal = out0 + (pre + quoted(key@) + seq![0x3Au8]);
        assert(out0 + pre + (quoted(key@) + seq![0x3Au8]) =~= goal);
        assert(goal.take(goal.len() as int) =~= goal);
        proof {
            lemma_prefix_of_append(out0 + pre, quoted(key@) + seq![0x3Au8], goal);
        }
        let r = self.element_begin(Ghost(goal));
        if r.is_err() {
            return r;
        }
        let n = self.scopes.len();
        if n == 0 {
            return Err(SerializeError::InvalidState);
        }
        let s = self.scopes[n - 1];
        if s.kind != ScopeKind::Object || s.key {
            return Err(SerializeError::InvalidState);
        }
        assert(out0 + pre + quoted(key@) + seq![0x3Au8] =~= goal);
        proof {
            lemma_prefix_of_append(out0 + pre + quoted(key@), seq![0x3Au8], goal);
        }
        let r = self.write_string_escaped(key, Ghost(goal));
        if r.is_err() {
            return r;
        }
        let c: [u8; 1] = [0x3Au8];
        assert(c@ =~= seq![0x3Au8]);
        let r = self.write(&c, Ghost(goal));
        if r.is_err() {
            return r;
        }
        self.scopes.set(n - 1, Scope { kind: ScopeKind::Object, tail: true, key: true });
        assert(self.output() =~= goal);
        Ok(())
    }

    /// Writes an object key followed by `:`.
    pub fn member_key(&mut self, key: &str) -> (r: Result<(), SerializeError<W::Error>>)
        requires
            old(self).wf(),
        ensures
            Self::key_post(*old(self), *final(self), r, key.spec_bytes()),
    {
        self.member_key_bytes(key.as_bytes())
    }

    /// What placing a key promises: where a key is allowed, the separator, the quoted
    /// key and `:` are written and the object waits for the value; elsewhere only the
    /// separator is written and `InvalidState` is returned; or the sink failed part way.
    pub open spec fn key_post(
        old: Self,
        new: Self,
        r: Result<(), SerializeError<W::Error>>,
        key: Seq<u8>,
    ) -> bool {
        let pre = element_prefix(old.scopes(), old.indent());
        let expected = pre + quoted(key) + seq![0x3Au8];
        &&& new.wf()
        &&& new.indent() == old.indent()
        &&& r is Ok ==> key_allowed(old.scopes()) && new.output() == old.output() + expected
            && new.scopes() == after_key(old.scopes())
        &&& r is Err ==> new.scopes() == old.scopes()
        &&& r matches Err(e) ==> (e is Write && partly_wrote(old.output(), new.output(), expected))
            || (e is InvalidState && !key_allowed(old.scopes()) && new.output() == old.output()
            + pre)
        &&& !(r matches Err(e) && e is DepthExceeded)
        &&& Self::sink_error(r)
        &&& Self::stops_past(
            old,
            new,
            !(r matches Err(e) && e is Write),
            old.output().len() + if key_allowed(old.scopes()) {
                expected.len()
            } else {
                pre.len()
            },
        )
        &&& !key_allowed(old.scopes()) ==> Self::goes_through(
            old,
            new,
            r matches Err(e) && e is InvalidState,
            old.output().len() + pre.len(),
        )
        &&& key_allowed(old.scopes()) ==> Self::element_goes_through(
            old,
            new,
            r is Ok,
            quoted(key) + seq![0x3Au8],
        )
    }

    /// What serializing a value promises: on success the separator and the value's
    /// text are written and the value is complete; on failure the sink holds a leading
    /// part of them.
    pub open spec fn serialize_post(
        old: Self,
        new: Self,
        r: Result<(), SerializeError<W::Error>>,
        text: Seq<u8>,
    ) -> bool {
        let expected = element_prefix(old.scopes(), old.indent()) + text;
        &&& new.wf()
        &&& new.indent() == old.indent()
        &&& r is Ok ==> new.output() == old.output() + expected && new.scopes() == after_element(
            old.scopes(),
        )
        &&& r is Err ==> partly_wrote(old.output(), new.output(), expected)
    }

}

/// Separator and whitespace before item `i` of an array whose items sit at `depth`.
pub open spec fn item_prefix(i: nat, pp: nat, depth: nat) -> Seq<u8> {
    let comma: Seq<u8> = if i > 0 {
        seq![0x2Cu8]
    } else {
        Seq::empty()
    };
    let ws: Seq<u8> = if pp > 0 {
        seq![0x0Au8] + spaces(depth * pp)
    } else {
        Seq::empty()
    };
    comma + ws
}

/// The items of an array, each with its separator, for items that sit at `depth`.
pub open spec fn items_text<T: Serialize>(items: Seq<T>, pp: nat, depth: nat) -> Seq<u8>
    decreases items.len(),
{
    if items.len() == 0 {
        Seq::empty()
    } else {
        items_text(items.drop_last(), pp, depth) + item_prefix(
            (items.len() - 1) as nat,
            pp,
            depth,
        ) + items.last().json_text(pp, depth)
    }
}

/// The JSON text of an array written at `depth` open scopes.
pub open spec fn array_text<T: Serialize>(items: Seq<T>, pp: nat, depth: nat) -> Seq<u8> {
    let close: Seq<u8> = if pp > 0 && items.len() > 0 {
        seq![0x0Au8] + spaces(depth * pp)
    } else {
        Seq::empty()
    };
    seq![0x5Bu8] + items_text(items, pp, depth + 1) + close + seq![0x5Du8]
}

/// Types that can serialize themselves as JSON.
///
/// `json_text(pp, depth)` is the text of the value when written with indent width `pp`
/// while `depth` scopes are open. What `serialize` promises of the text holds only
/// where `obeys_json_text()` is true: every implementation in this crate sets it and
/// is verified against the contract, while an implementation written elsewhere (such
/// as one the derive macros generate) leaves it false, and nothing is then said of its
/// output beyond the serializer staying well formed.
pub trait Serialize {
    open spec fn obeys_json_text() -> bool {
        false
    }

    open spec fn json_text(&self, pp: nat, depth: nat) -> Seq<u8> {
        Seq::empty()
    }

    /// Serializing this value with `depth` containers open succeeds wherever the sink
    /// takes its text. A type that promises nothing leaves it false.
    open spec fn serializes_at(&self, depth: nat) -> bool {
        false
    }

    fn serialize<W: Write>(&self, ser: &mut Serializer<W, 32>) -> (r: Result<
        (),
        SerializeError<W::Error>,
    >)
        requires
            old(ser).wf(),
        ensures
            final(ser).wf(),
            Self::obeys_json_text() ==> Serializer::<W, 32>::serialize_post(
                *old(ser),
                *final(ser),
                r,
                self.json_text(old(ser).indent(), old(ser).scopes().len()),
            ),
            Self::obeys_json_text() && self.serializes_at(old(ser).scopes().len()) ==> Serializer::<
                W,
                32,
            >::element_goes_through(
                *old(ser),
                *final(ser),
                r is Ok,
                self.json_text(old(ser).indent(), old(ser).scopes().len()),
            ),
    ;
}

impl Serialize for bool {
    open spec fn json_text(&self, pp: nat, depth: nat) -> Seq<u8> {
        bool_text(*self)
    }

    open spec fn obeys_json_text() -> bool {
        true
    }

    open spec fn serializes_at(&self, depth: nat) -> bool {
        true
    }

    fn serialize<W: Write>(&self, ser: &mut Serializer<W, 32>) -> (r: Result<
        (),
        SerializeError<W::Error>,
    >) {
        ser.bool_val(*self)
    }
}

impl Serialize for str {
    open spec fn json_text(&self, pp: nat, depth: nat) -> Seq<u8> {
        quoted(self.spec_bytes())
    }

    open spec fn obeys_json_text() -> bool {
        true
    }

    open spec fn serializes_at(&self, depth: nat) -> bool {
        true
    }

    fn serialize<W: Write>(&self, ser: &mut Serializer<W, 32>) -> (r: Result<
        (),
        SerializeError<W::Error>,
    >) {
        ser.string(self)
    }
}

impl<'a> Serialize for &'a str {
    open spec fn json_text(&self, pp: nat, depth: nat) -> Seq<u8> {
        quoted((**self).spec_bytes())
    }

    open spec fn obeys_json_text() -> bool {
        true
    }

    open spec fn serializes_at(&self, depth: nat) -> bool {
        true
    }

    fn serialize<W: Write>(&self, ser: &mut Serializer<W, 32>) -> (r: Result<
        (),
        SerializeError<W::Error>,
    >) {
        ser.string(*self)
    }
}

impl Serialize for String {
    open spec fn json_text(&self, pp: nat, depth: nat) -> Seq<u8> {
        quoted(vstd::utf8::encode_utf8(self@))
    }

    open spec fn obeys_json_text() -> bool {
        true
    }

    open spec fn serializes_at(&self, depth: nat) -> bool {
        true
    }

    fn serialize<W: Write>(&self, ser: &mut Serializer<W, 32>) -> (r: Result<
        (),
        SerializeError<W::Error>,
    >) {
        ser.string(self.as_str())
    }
}

impl Serialize for () {
    open spec fn json_text(&self, pp: nat, depth: nat) -> Seq<u8> {
        null_text()
    }

    open spec fn obeys_json_text() -> bool {
        true
    }

    open spec fn serializes_at(&self, depth: nat) -> bool {
        true
    }

    fn serialize<W: Write>(&self, ser: &mut Serializer<W, 32>) -> (r: Result<
        (),
        SerializeError<W::Error>,
    >) {
        ser.null()
    }
}

impl<T: Serialize> Serialize for Option<T> {
    open spec fn json_text(&self, pp: nat, depth: nat) -> Seq<u8> {
        match self {
            None => null_text(),
            Some(v) => v.json_text(pp, depth),
        }
    }

    open spec fn obeys_json_text() -> bool {
        T::obeys_json_text()
    }

    open spec fn serializes_at(&self, depth: nat) -> bool {
        match self {
            None => true,
            Some(v) => v.serializes_at(depth),
        }
    }

    fn serialize<W: Write>(&self, ser: &mut Serializer<W, 32>) -> (r: Result<
        (),
        SerializeError<W::Error>,
    >) {
        match self {
            None => ser.null(),
            Some(v) => v.serialize(ser),
        }
    }
}

impl<T: Serialize + ?Sized> Serialize for Box<T> {
    open spec fn json_text(&self, pp: nat, depth: nat) -> Seq<u8> {
        (**self).json_text(pp, depth)
    }

    open spec fn obeys_json_text() -> bool {
        T::obeys_json_text()
    }

    open spec fn serializes_at(&self, depth: nat) -> bool {
        (**self).serializes_at(depth)
    }

    fn serialize<W: Write>(&self, ser: &mut Serializer<W, 32>) -> (r: Result<
        (),
        SerializeError<W::Error>,
    >) {
        (**self).serialize(ser)
    }
}

impl Serialize for i8 {
    open spec fn json_text(&self, pp: nat, depth: nat) -> Seq<u8> {
        int_text(*self as int)
    }

    open spec fn obeys_json_text() -> bool {
        true
    }

    open spec fn serializes_at(&self, depth: nat) -> bool {
        true
    }

    fn serialize<W: Write>(&self, ser: &mut Serializer<W, 32>) -> (r: Result<
        (),
        SerializeError<W::Error>,
    >) {
        ser.integer_i128(*self as i128)
    }
}

impl Serialize for i16 {
    open spec fn json_text(&self, pp: nat, depth: nat) -> Seq<u8> {
        int_text(*self as int)
    }

    open spec fn obeys_json_text() -> bool {
        true
    }

    open spec fn serializes_at(&self, depth: nat) -> bool {
        true
    }

    fn serialize<W: Write>(&self, ser: &mut Serializer<W, 32>) -> (r: Result<
        (),
        SerializeError<W::Error>,
    >) {
        ser.integer_i128(*self as i128)
    }
}

impl Serialize for i32 {
    open spec fn json_text(&self, pp: nat, depth: nat) -> Seq<u8> {
        int_text(*self as int)
    }

    open spec fn obeys_json_text() -> bool {
        true
    }

    open spec fn serializes_at(&self, depth: nat) -> bool {
        true
    }

    fn serialize<W: Write>(&self, ser: &mut Serializer<W, 32>) -> (r: Result<
        (),
        SerializeError<W::Error>,
    >) {
        ser.integer_i128(*self as i128)
    }
}

impl Serialize for i64 {
    open spec fn json_text(&self, pp: nat, depth: nat) -> Seq<u8> {
        int_text(*self as int)
    }

    open spec fn obeys_json_text() -> bool {
        true
    }

    open spec fn serializes_at(&self, depth: nat) -> bool {
        true
    }

    fn serialize<W: Write>(&self, ser: &mut Serializer<W, 32>) -> (r: Result<
        (),
        SerializeError<W::Error>,
    >) {
        ser.integer_i128(*self as i128)
    }
}

impl Serialize for i128 {
    open spec fn json_text(&self, pp: nat, depth: nat) -> Seq<u8> {
        int_text(*self as int)
    }

    open spec fn obeys_json_text() -> bool {
        true
    }

    open spec fn serializes_at(&self, depth: nat) -> bool {
        true
    }

    fn serialize<W: Write>(&self, ser: &mut Serializer<W, 32>) -> (r: Result<
        (),
        SerializeError<W::Error>,
    >) {
        ser.integer_i128(*self as i128)
    }
}

impl Serialize for isize {
    open spec fn json_text(&self, pp: nat, depth: nat) -> Seq<u8> {
        int_text(*self as int)
    }

    open spec fn obeys_json_text() -> bool {
        true
    }

    open spec fn serializes_at(&self, depth: nat) -> bool {
        true
    }

    fn serialize<W: Write>(&self, ser: &mut Serializer<W, 32>) -> (r: Result<
        (),
        SerializeError<W::Error>,
    >) {
        ser.integer_i128(*self as i128)
    }
}

impl Serialize for u8 {
    open spec fn json_text(&self, pp: nat, depth: nat) -> Seq<u8> {
        int_text(*self as int)
    }

    open spec fn obeys_json_text() -> bool {
        true
    }

    open spec fn serializes_at(&self, depth: nat) -> bool {
        true
    }

    fn serialize<W: Write>(&self, ser: &mut Serializer<W, 32>) -> (r: Result<
        (),
        SerializeError<W::Error>,
    >) {
        ser.integer_parts(false, *self as u128)
    }
}

impl Serialize for u16 {
    open spec fn json_text(&self, pp: nat, depth: nat) -> Seq<u8> {
        int_text(*self as int)
    }

    open spec fn obeys_json_text() -> bool {
        true
    }

    open spec fn serializes_at(&self, depth: nat) -> bool {
        true
    }

    fn serialize<W: Write>(&self, ser: &mut Serializer<W, 32>) -> (r: Result<
        (),
        SerializeError<W::Error>,
    >) {
        ser.integer_parts(false, *self as u128)
    }
}

impl Serialize for u32 {
    open spec fn json_text(&self, pp: nat, depth: nat) -> Seq<u8> {
        int_text(*self as int)
    }

    open spec fn obeys_json_text() -> bool {
        true
    }

    open spec fn serializes_at(&self, depth: nat) -> bool {
        true
    }

    fn serialize<W: Write>(&self, ser: &mut Serializer<W, 32>) -> (r: Result<
        (),
        SerializeError<W::Error>,
    >) {
        ser.integer_parts(false, *self as u128)
    }
}

impl Serialize for u64 {
    open spec fn json_text(&self, pp: nat, depth: nat) -> Seq<u8> {
        int_text(*self as int)
    }

    open spec fn obeys_json_text() -> bool {
        true
    }

    open spec fn serializes_at(&self, depth: nat) -> bool {
        true
    }

    fn serialize<W: Write>(&self, ser: &mut Serializer<W, 32>) -> (r: Result<
        (),
        SerializeError<W::Error>,
    >) {
        ser.integer_parts(false, *self as u128)
    }
}

impl Serialize for u128 {
    open spec fn json_text(&self, pp: nat, depth: nat) -> Seq<u8> {
        int_text(*self as int)
    }

    open spec fn obeys_json_text() -> bool {
        true
    }

    open spec fn serializes_at(&self, depth: nat) -> bool {
        true
    }

    fn serialize<W: Write>(&self, ser: &mut Serializer<W, 32>) -> (r: Result<
        (),
        SerializeError<W::Error>,
    >) {
        ser.integer_parts(false, *self as u128)
    }
}

impl Serialize for usize {
    open spec fn json_text(&self, pp: nat, depth: nat) -> Seq<u8> {
        int_text(*self as int)
    }

    open spec fn obeys_json_text() -> bool {
        true
    }

    open spec fn serializes_at(&self, depth: nat) -> bool {
        true
    }

    fn serialize<W: Write>(&self, ser: &mut Serializer<W, 32>) -> (r: Result<
        (),
        SerializeError<W::Error>,
    >) {
        ser.integer_parts(false, *self as u128)
    }
}

/// An array of `items` opened with `depth` containers open stays within the nesting
/// limit, and every item serializes one level deeper.
pub open spec fn items_serialize_at<T: Serialize>(items: Seq<T>, depth: nat) -> bool {
    &&& depth < 32
    &&& forall|i: int| 0 <= i < items.len() ==> #[trigger] items[i].serializes_at(depth + 1)
}

/// Writes the items of `items` as a JSON array.
pub(crate) fn serialize_items<T: Serialize, W: Write>(items: &[T], ser: &mut Serializer<W, 32>) -> (r: Result<
    (),
    SerializeError<W::Error>,
>)
    requires
        old(ser).wf(),
    ensures
        final(ser).wf(),
        T::obeys_json_text() ==> Serializer::<W, 32>::serialize_post(
            *old(ser),
            *final(ser),
            r,
            array_text(items@, old(ser).indent(), old(ser).scopes().len()),
        ),
        T::obeys_json_text() && items_serialize_at(items@, old(ser).scopes().len()) ==> Serializer::<
            W,
            32,
        >::element_goes_through(
            *old(ser),
            *final(ser),
            r is Ok,
            array_text(items@, old(ser).indent(), old(ser).scopes().len()),
        ),
{
    let ghost pp = ser.indent();
    let ghost d = ser.scopes().len();
    let ghost out0 = ser.output();
    let ghost pre = element_prefix(ser.scopes(), pp);
    let ghost full = out0 + (pre + array_text(items@, pp, d));
    let ghost scopes0 = ser.scopes();
    let ghost rest = array_text(items@, pp, d).skip(1);
    assert(array_text(items@, pp, d) =~= seq![0x5Bu8] + rest);
    assert(full =~= (out0 + pre + seq![0x5Bu8]) + rest);
    let ghost open_ = out0 + pre + seq![0x5Bu8];
    let ghost close: Seq<u8> = if pp > 0 && items@.len() > 0 {
        seq![0x0Au8] + spaces(d * pp)
    } else {
        Seq::empty()
    };
    assert(full =~= (open_ + items_text(items@, pp, d + 1)) + (close + seq![0x5Du8]));
    let ghost ob = T::obeys_json_text();
    let ghost ok = ob && items_serialize_at(items@, d);
    let r = ser.array_begin();
    if r.is_err() {
        proof {
            lemma_prefix_refl(full);
            lemma_prefix_of_append(out0 + pre + seq![0x5Bu8], rest, full);
            assert(out0 + (pre + seq![0x5Bu8]) =~= out0 + pre + seq![0x5Bu8]);
            if let Err(SerializeError::Write(_)) = r {
                lemma_prefix_trans(ser.output(), out0 + pre + seq![0x5Bu8], full);
            }
        }
        return r;
    }
    let mut i: usize = 0;
    while i < items.len()
        invariant
            0 <= i <= items.len(),
            ser.wf(),
            ob == T::obeys_json_text(),
            ob ==> ser.indent() == pp,
            ob ==> ser.scopes() == scopes0.push(Scope { kind: ScopeKind::Array, tail: i > 0, key: false }),
            d == scopes0.len(),
            ob ==> ser.output() == out0 + pre + seq![0x5Bu8] + items_text(items@.take(i as int), pp, d + 1),
            full == out0 + (pre + array_text(items@, pp, d)),
            open_ == out0 + pre + seq![0x5Bu8],
            pp == old(ser).indent(),
            d == old(ser).scopes().len(),
            out0 == old(ser).output(),
            scopes0 == old(ser).scopes(),
            pre == element_prefix(old(ser).scopes(), pp),
            full == (open_ + items_text(items@, pp, d + 1)) + (close + seq![0x5Du8]),
            ok == (ob && items_serialize_at(items@, d)),
            ok ==> forall|total: nat|
                #[trigger] old(ser).accepts_up_to(total) && full.len() <= total
                    ==> ser.accepts_up_to(total),
        decreases items.len() - i,
    {
        let ghost before = ser.output();
        let ghost mid = *ser;
        let r = items[i].serialize(ser);
        let ghost ip = item_prefix(i as nat, pp, d + 1);
        let ghost it = items@[i as int].json_text(pp, d + 1);
        proof {
            assert(items@.take(i + 1).drop_last() =~= items@.take(i as int));
            assert(items@.take(i + 1).last() == items@[i as int]);
            assert(element_prefix(scopes0.push(Scope { kind: ScopeKind::Array, tail: i > 0, key: false }), pp)
                == item_prefix(i as nat, pp, d + 1));
            assert(items_text(items@.take(i + 1), pp, d + 1) == items_text(items@.take(i as int), pp, d + 1) + ip + it);
            if ob {
                assert(before + (ip + it) =~= open_ + items_text(items@.take(i + 1), pp, d + 1));
            }
            lemma_items_text_prefix(items@, (i + 1) as nat, pp, d + 1);
            lemma_prefix_extend(open_, items_text(items@.take(i + 1), pp, d + 1), items_text(items@, pp, d + 1));
            lemma_prefix_refl(full);
            lemma_prefix_of_append(open_ + items_text(items@, pp, d + 1), close + seq![0x5Du8], full);
            if ob {
                lemma_prefix_trans(before + (ip + it), open_ + items_text(items@, pp, d + 1), full);
                assert(before.len() + ip.len() + it.len() <= full.len());
            }
            if ok {
                assert(items@[i as int].serializes_at(d + 1));
            }
        }
        if r.is_err() {
            proof {
                if ob {
                    lemma_prefix_trans(ser.output(), before + (ip + it), full);
                }
            }
            return r;
        }
        i = i + 1;
    }
    assert(items@.take(i as int) =~= items@);
    let ghost before = ser.output();
    let r = ser.array_end();
    proof {
        if ob {
            assert(closing_prefix(scopes0.push(Scope { kind: ScopeKind::Array, tail: items@.len() > 0, key: false }), pp) =~= close);
            assert(full =~= before + (close + seq![0x5Du8]));
            if r.is_err() {
                lemma_prefix_refl(full);
                lemma_prefix_trans(ser.output(), before + (close + seq![0x5Du8]), full);
            } else {
                assert(scopes0.push(Scope { kind: ScopeKind::Array, tail: items@.len() > 0, key: false }).drop_last() =~= scopes0);
            }
        }
    }
    r
}

/// The items text of a prefix of `items` is a prefix of the whole array's items text.
pub proof fn lemma_items_text_prefix<T: Serialize>(items: Seq<T>, k: nat, pp: nat, depth: nat)
    requires
        k <= items.len(),
    ensures
        prefix_of(items_text(items.take(k as int), pp, depth), items_text(items, pp, depth)),
    decreases items.len() - k,
{
    if k == items.len() {
        assert(items.take(k as int) =~= items);
        lemma_prefix_refl(items_text(items, pp, depth));
    } else {
        lemma_items_text_prefix(items, k + 1, pp, depth);
        let t = items.take(k as int + 1);
        assert(t.drop_last() =~= items.take(k as int));
        assert(items_text(t, pp, depth) == items_text(items.take(k as int), pp, depth) + (item_prefix(k, pp, depth) + t.last().json_text(pp, depth)));
        lemma_prefix_of_append(items_text(items.take(k as int), pp, depth), item_prefix(k, pp, depth) + t.last().json_text(pp, depth), items_text(items, pp, depth));
    }
}

impl<T: Serialize> Serialize for [T] {
    open spec fn json_text(&self, pp: nat, depth: nat) -> Seq<u8> {
        array_text(self@, pp, depth)
    }

    open spec fn obeys_json_text() -> bool {
        T::obeys_json_text()
    }

    open spec fn serializes_at(&self, depth: nat) -> bool {
        items_serialize_at(self@, depth)
    }

    fn serialize<W: Write>(&self, ser: &mut Serializer<W, 32>) -> (r: Result<
        (),
        SerializeError<W::Error>,
    >) {
        serialize_items(self, ser)
    }
}

impl<T: Serialize, const N: usize> Serialize for [T; N] {
    open spec fn json_text(&self, pp: nat, depth: nat) -> Seq<u8> {
        array_text(self@, pp, depth)
    }

    open spec fn obeys_json_text() -> bool {
        T::obeys_json_text()
    }

    open spec fn serializes_at(&self, depth: nat) -> bool {
        items_serialize_at(self@, depth)
    }

    fn serialize<W: Write>(&self, ser: &mut Serializer<W, 32>) -> (r: Result<
        (),
        SerializeError<W::Error>,
    >) {
        serialize_items(self.as_slice(), ser)
    }
}

impl<T: Serialize> Serialize for Vec<T> {
    open spec fn json_text(&self, pp: nat, depth: nat) -> Seq<u8> {
        array_text(self@, pp, depth)
    }

    open spec fn obeys_json_text() -> bool {
        T::obeys_json_text()
    }

    open spec fn serializes_at(&self, depth: nat) -> bool {
        items_serialize_at(self@, depth)
    }

    fn serialize<W: Write>(&self, ser: &mut Serializer<W, 32>) -> (r: Result<
        (),
        SerializeError<W::Error>,
    >) {
        serialize_items(self.as_slice(), ser)
    }
}

/// Serialize a `T: Serialize` value into a stack-allocated `[u8; N]` buffer.
/// Returns the buffer and the number of bytes written.
pub fn stringify_sized<const N: usize, T: Serialize>(val: &T) -> (r: Result<
    ([u8; N], usize),
    SerializeError<WriteError>,
>)
    ensures
        T::obeys_json_text() ==> (r matches Ok((buf, len)) ==> len <= N && buf@.take(len as int)
            == val.json_text(0, 0)),
        T::obeys_json_text() && val.json_text(0, 0).len() > N ==> r is Err,
        r matches Ok((buf, len)) ==> forall|k: int| len <= k < N ==> buf@[k] == 0,
        T::obeys_json_text() && val.serializes_at(0) && val.json_text(0, 0).len() <= N ==> r is Ok,
{
    let mut ser: Serializer<ArrayWriter<N>, 32> = Serializer::new(ArrayWriter::new());
    proof {
        assert(ser.accepts_up_to(val.json_text(0, 0).len()) <== val.json_text(0, 0).len() <= N);
        assert(element_prefix(ser.scopes(), 0) =~= Seq::<u8>::empty());
    }
    let r = val.serialize(&mut ser);
    if let Err(e) = r {
        return Err(e);
    }
    Ok(ser.into_writer().into_parts())
}

/// Serialize a `T: Serialize` value, pretty-printed with `indent` spaces per level,
/// into a stack-allocated `[u8; N]` buffer. Returns the buffer and the number of bytes
/// written.
pub fn stringify_sized_pretty<const N: usize, T: Serialize>(val: &T, indent: usize) -> (r: Result<
    ([u8; N], usize),
    SerializeError<WriteError>,
>)
    ensures
        T::obeys_json_text() ==> (r matches Ok((buf, len)) ==> len <= N && buf@.take(len as int)
            == val.json_text(indent as nat, 0)),
        T::obeys_json_text() && val.json_text(indent as nat, 0).len() > N ==> r is Err,
        r matches Ok((buf, len)) ==> forall|k: int| len <= k < N ==> buf@[k] == 0,
        T::obeys_json_text() && val.serializes_at(0) && val.json_text(indent as nat, 0).len() <= N
            ==> r is Ok,
{
    let mut ser: Serializer<ArrayWriter<N>, 32> = Serializer::with_pp(ArrayWriter::new(), indent);
    proof {
        assert(ser.accepts_up_to(val.json_text(indent as nat, 0).len()) <== val.json_text(
            indent as nat,
            0,
        ).len() <= N);
        assert(element_prefix(ser.scopes(), indent as nat) =~= Seq::<u8>::empty());
    }
    let r = val.serialize(&mut ser);
    if let Err(e) = r {
        return Err(e);
    }
    Ok(ser.into_writer().into_parts())
}

/// Runs `f` on a serializer, with indent width `indent`, that writes into a
/// stack-allocated `[u8; N]` buffer; returns `f`'s error, or the buffer and the number
/// of bytes written.
pub fn stringify_manual_sized_pretty<const N: usize>(
    indent: usize,
    f: impl FnOnce(&mut Serializer<ArrayWriter<N>, 32>) -> Result<(), SerializeError<WriteError>>,
) -> (r: Result<([u8; N], usize), SerializeError<WriteError>>)
    requires
        forall|s: &mut Serializer<ArrayWriter<N>, 32>|
            s.wf() && s.output() == Seq::<u8>::empty() && s.scopes() == Seq::<Scope>::empty()
                && s.indent() == indent ==> #[trigger] f.requires((s,)),
    ensures
        exists|s: &mut Serializer<ArrayWriter<N>, 32>, v: Result<(), SerializeError<WriteError>>|
            {
                &&& s.wf()
                &&& s.output() == Seq::<u8>::empty()
                &&& s.scopes() == Seq::<Scope>::empty()
                &&& s.indent() == indent
                &&& #[trigger] f.ensures((s,), v)
                &&& match v {
                    Err(e) => r == Err::<([u8; N], usize), SerializeError<WriteError>>(e),
                    Ok(()) => r matches Ok((buf, len)) && len <= N && buf@.take(len as int)
                        == final(s).output() && forall|k: int| len <= k < N ==> buf@[k] == 0,
                }
            },
{
    let mut ser: Serializer<ArrayWriter<N>, 32> = Serializer::with_pp(ArrayWriter::new(), indent);
    let v = f(&mut ser);
    match v {
        Err(e) => Err(e),
        Ok(()) => Ok(ser.into_writer().into_parts()),
    }
}

/// Runs `f` on a compact serializer that writes into a stack-allocated `[u8; N]`
/// buffer; returns `f`'s error, or the buffer and the number of bytes written.
pub fn stringify_manual_sized<const N: usize>(
    f: impl FnOnce(&mut Serializer<ArrayWriter<N>, 32>) -> Result<(), SerializeError<WriteError>>,
) -> (r: Result<([u8; N], usize), SerializeError<WriteError>>)
    requires
        forall|s: &mut Serializer<ArrayWriter<N>, 32>|
            s.wf() && s.output() == Seq::<u8>::empty() && s.scopes() == Seq::<Scope>::empty()
                && s.indent() == 0 ==> #[trigger] f.requires((s,)),
    ensures
        exists|s: &mut Serializer<ArrayWriter<N>, 32>, v: Result<(), SerializeError<WriteError>>|
            {
                &&& s.wf()
                &&& s.output() == Seq::<u8>::empty()
                &&& s.scopes() == Seq::<Scope>::empty()
                &&& s.indent() == 0
                &&& #[trigger] f.ensures((s,), v)
                &&& match v {
                    Err(e) => r == Err::<([u8; N], usize), SerializeError<WriteError>>(e),
                    Ok(()) => r matches Ok((buf, len)) && len <= N && buf@.take(len as int)
                        == final(s).output() && forall|k: int| len <= k < N ==> buf@[k] == 0,
                }
            },
{
    stringify_manual_sized_pretty(0, f)
}

/// Counts the bytes that `f` makes a compact serializer write, without storing them:
/// the count of the [`SizeCounter`] the serializer writes to, which starts at zero and
/// grows by the length of each write (wrapping around past `usize::MAX`). When `f` fails
/// with `DepthExceeded` the result is 0; any other failure of `f` is ignored.
pub fn measure<F>(f: F) -> (n: usize) where
    F: FnOnce(&mut Serializer<SizeCounter, 32>) -> Result<(), SerializeError<Infallible>>,
    requires
        forall|s: &mut Serializer<SizeCounter, 32>|
            s.wf() && s.output() == Seq::<u8>::empty() && s.scopes() == Seq::<Scope>::empty()
                && s.indent() == 0 && s.sink_writer().counted() == 0 ==> #[trigger] f.requires((s,)),
    ensures
        exists|s: &mut Serializer<SizeCounter, 32>, v: Result<(), SerializeError<Infallible>>|
            {
                &&& s.wf()
                &&& s.output() == Seq::<u8>::empty()
                &&& s.scopes() == Seq::<Scope>::empty()
                &&& s.indent() == 0
                &&& s.sink_writer().counted() == 0
                &&& #[trigger] f.ensures((s,), v)
                &&& n == if v matches Err(e) && e is DepthExceeded {
                    0
                } else {
                    final(s).sink_writer().counted()
                }
                &&& n == if v matches Err(e) && e is DepthExceeded {
                    0
                } else {
                    wrapped_count(final(s).output().len())
                }
            },
{
    let mut ser: Serializer<SizeCounter, 32> = Serializer::new(SizeCounter::new());
    let v = f(&mut ser);
    let counter = ser.into_writer();
    match v {
        Err(SerializeError::DepthExceeded) => 0,
        _ => counter.bytes_counted(),
    }
}

/// The bytes written into a `String`, or `InvalidState` if they are not UTF-8.
fn into_string(bytes: Vec<u8>) -> (r: Result<String, SerializeError<Infallible>>)
    ensures
        valid_utf8(bytes@) ==> (r matches Ok(s) && encode_utf8(s@) == bytes@),
        !valid_utf8(bytes@) ==> (r matches Err(e) && e is InvalidState),
{
    match string_from_utf8(bytes) {
        Some(s) => Ok(s),
        None => Err(SerializeError::InvalidState),
    }
}

/// Serialize a value, pretty-printed with `indent` spaces per level, into a `String`.
pub fn stringify_pretty<T: Serialize>(val: &T, indent: usize) -> (r: Result<
    String,
    SerializeError<Infallible>,
>)
    ensures
        T::obeys_json_text() ==> (r matches Ok(s) ==> encode_utf8(s@) == val.json_text(
            indent as nat,
            0,
        )),
        T::obeys_json_text() && !valid_utf8(val.json_text(indent as nat, 0)) ==> r is Err,
        T::obeys_json_text() && val.serializes_at(0) && valid_utf8(val.json_text(indent as nat, 0))
            ==> r is Ok,
{
    let mut ser: Serializer<Vec<u8>, 32> = Serializer::with_pp(Vec::new(), indent);
    proof {
        assert(ser.accepts_up_to(val.json_text(indent as nat, 0).len()));
        assert(element_prefix(ser.scopes(), indent as nat) =~= Seq::<u8>::empty());
    }
    let r = val.serialize(&mut ser);
    if let Err(e) = r {
        return Err(e);
    }
    into_string(ser.into_writer())
}

/// Runs `f` on a serializer, with indent width `indent`, that writes into a growing
/// buffer; returns `f`'s error, or the text written as a `String`.
pub fn stringify_manual_pretty<F>(indent: usize, f: F) -> (r: Result<
    String,
    SerializeError<Infallible>,
>) where F: FnOnce(&mut Serializer<Vec<u8>, 32>) -> Result<(), SerializeError<Infallible>>
    requires
        forall|s: &mut Serializer<Vec<u8>, 32>|
            s.wf() && s.output() == Seq::<u8>::empty() && s.scopes() == Seq::<Scope>::empty()
                && s.indent() == indent ==> #[trigger] f.requires((s,)),
    ensures
        exists|s: &mut Serializer<Vec<u8>, 32>, v: Result<(), SerializeError<Infallible>>|
            {
                &&& s.wf()
                &&& s.output() == Seq::<u8>::empty()
                &&& s.scopes() == Seq::<Scope>::empty()
                &&& s.indent() == indent
                &&& #[trigger] f.ensures((s,), v)
                &&& match v {
                    Err(e) => r == Err::<String, SerializeError<Infallible>>(e),
                    Ok(()) => if valid_utf8(final(s).output()) {
                        r matches Ok(t) && encode_utf8(t@) == final(s).output()
                    } else {
                        r matches Err(e) && e is InvalidState
                    },
                }
            },
{
    let mut ser: Serializer<Vec<u8>, 32> = Serializer::with_pp(Vec::new(), indent);
    let v = f(&mut ser);
    match v {
        Err(e) => Err(e),
        Ok(()) => into_string(ser.into_writer()),
    }
}

/// Runs `f` on a compact serializer that writes into a growing buffer; returns `f`'s
/// error, or the text written as a `String`.
pub fn stringify_manual<F>(f: F) -> (r: Result<String, SerializeError<Infallible>>) where
    F: FnOnce(&mut Serializer<Vec<u8>, 32>) -> Result<(), SerializeError<Infallible>>,
    requires
        forall|s: &mut Serializer<Vec<u8>, 32>|
            s.wf() && s.output() == Seq::<u8>::empty() && s.scopes() == Seq::<Scope>::empty()
                && s.indent() == 0 ==> #[trigger] f.requires((s,)),
    ensures
        exists|s: &mut Serializer<Vec<u8>, 32>, v: Result<(), SerializeError<Infallible>>|
            {
                &&& s.wf()
                &&& s.output() == Seq::<u8>::empty()
                &&& s.scopes() == Seq::<Scope>::empty()
                &&& s.indent() == 0
                &&& #[trigger] f.ensures((s,), v)
                &&& match v {
                    Err(e) => r == Err::<String, SerializeError<Infallible>>(e),
                    Ok(()) => if valid_utf8(final(s).output()) {
                        r matches Ok(t) && encode_utf8(t@) == final(s).output()
                    } else {
                        r matches Err(e) && e is InvalidState
                    },
                }
            },
{
    stringify_manual_pretty(0, f)
}

} // verus!
