//! The wire format: numbers as little endian base 128 varints, identities and byte strings prefixed
//! by their length, options and enum variants by a tag. A value is read at a position of a byte
//! string, and reading back what was written gives the value.

use vstd::prelude::*;
use vstd::slice::slice_subrange;
use vstd::utf8::{decode_utf8, encode_utf8, valid_utf8};

verus! {

/// Bytes which are not the encoding of a value.
#[derive(Debug, Clone, Copy, PartialEq, Eq, Structural)]
pub enum DecodeError {
    /// The bytes end before the value does.
    UnexpectedEnd,
    /// A varint without end or beyond its width.
    BadVarint,
    /// A flag other than zero and one.
    BadBool,
    /// An option tag other than zero and one.
    BadOption,
    /// A string which is not UTF-8.
    BadUtf8,
    /// An identity which is not sixteen bytes long.
    BadIdentity,
    /// An unknown enum variant.
    UnknownVariant,
}

/// The bytes stand at the position.
pub open spec fn holds(s: Seq<u8>, at: int, bytes: Seq<u8>) -> bool {
    &&& 0 <= at
    &&& at + bytes.len() <= s.len()
    &&& forall|i: int| 0 <= i < bytes.len() ==> s[at + i] == #[trigger] bytes[i]
}

pub proof fn lemma_holds_add(s: Seq<u8>, at: int, a: Seq<u8>, b: Seq<u8>)
    ensures
        holds(s, at, a + b) == (holds(s, at, a) && holds(s, at + a.len(), b)),
{
    if holds(s, at, a + b) {
        assert forall|i: int| 0 <= i < a.len() implies s[at + i] == #[trigger] a[i] by {
            assert((a + b)[i] == a[i]);
        }
        assert forall|i: int| 0 <= i < b.len() implies s[at + a.len() + i] == #[trigger] b[i] by {
            assert((a + b)[a.len() + i] == b[i]);
        }
    }
    if holds(s, at, a) && holds(s, at + a.len(), b) {
        assert forall|i: int| 0 <= i < (a + b).len() implies s[at + i] == #[trigger] (a + b)[i] by {
            if i < a.len() {
                assert((a + b)[i] == a[i]);
            } else {
                assert((a + b)[i] == b[i - a.len()]);
                assert(s[at + a.len() + (i - a.len())] == b[i - a.len()]);
            }
        }
    }
}

pub open spec fn map_read<A, B>(r: Result<(A, int), DecodeError>, f: spec_fn(A) -> B) -> Result<
    (B, int),
    DecodeError,
> {
    match r {
        Ok((a, end)) => Ok((f(a), end)),
        Err(e) => Err(e),
    }
}

/// A value with an encoding.
pub trait Wire: DeepView + Sized {
    spec fn encoding(v: Self::V) -> Seq<u8>;

    spec fn read(s: Seq<u8>, at: int) -> Result<(Self::V, int), DecodeError>;

    /// The encoding holds all of the value.
    spec fn is_whole(v: Self::V) -> bool;

    proof fn reads_back(s: Seq<u8>, at: int, v: Self::V)
        requires
            Self::is_whole(v),
            holds(s, at, Self::encoding(v)),
        ensures
            Self::read(s, at) == Ok::<(Self::V, int), DecodeError>(
                (v, at + Self::encoding(v).len()),
            ),
    ;

    proof fn advances(s: Seq<u8>, at: int)
        requires
            0 <= at <= s.len(),
        ensures
            Self::read(s, at) matches Ok((v, end)) ==> at < end <= s.len(),
    ;

    fn put(&self, out: &mut Vec<u8>)
        ensures
            final(out)@ == old(out)@ + Self::encoding(self.deep_view()),
    ;

    fn take(bytes: &[u8], at: usize) -> (r: Result<(Self, usize), DecodeError>)
        requires
            at <= bytes@.len(),
        ensures
            read_matches(r, Self::read(bytes@, at as int)),
    ;
}

/// What was read is what the format says is there.
pub open spec fn read_matches<T: DeepView>(
    r: Result<(T, usize), DecodeError>,
    expected: Result<(T::V, int), DecodeError>,
) -> bool {
    match (r, expected) {
        (Ok((value, end)), Ok((v, e))) => value.deep_view() == v && end == e,
        (Err(a), Err(b)) => a == b,
        _ => false,
    }
}

/// Seven bits per byte, the least significant ones first, the eighth bit set but in the last byte.
pub open spec fn varint(v: nat) -> Seq<u8>
    decreases v,
{
    if v < 128 {
        seq![v as u8]
    } else {
        seq![(128 + v % 128) as u8] + varint(v / 128)
    }
}

/// One more than the greatest value of a varint of `more` further bytes whose last byte is at most
/// `last`.
pub open spec fn varint_cap(more: nat, last: nat) -> nat
    decreases more,
{
    if more == 0 {
        last + 1
    } else {
        128 * varint_cap((more - 1) as nat, last)
    }
}

/// Reads a varint of at most `more` further bytes whose last byte, where all are there, is at most
/// `last`.
pub open spec fn read_varint(s: Seq<u8>, at: int, more: nat, last: nat) -> Result<
    (nat, int),
    DecodeError,
>
    decreases more,
{
    if at >= s.len() {
        Err(DecodeError::UnexpectedEnd)
    } else if s[at] < 128 {
        if more == 0 && s[at] > last {
            Err(DecodeError::BadVarint)
        } else {
            Ok((s[at] as nat, at + 1))
        }
    } else if more == 0 {
        Err(DecodeError::BadVarint)
    } else {
        match read_varint(s, at + 1, (more - 1) as nat, last) {
            Ok((v, end)) => Ok(((s[at] - 128 + 128 * v) as nat, end)),
            Err(e) => Err(e),
        }
    }
}

pub proof fn lemma_varint_len(v: nat, more: nat, last: nat)
    requires
        v < varint_cap(more, last),
        last < 128,
    ensures
        1 <= varint(v).len() <= more + 1,
    decreases more,
{
    if v >= 128 {
        assert(v / 128 < varint_cap((more - 1) as nat, last));
        lemma_varint_len(v / 128, (more - 1) as nat, last);
    }
}

proof fn lemma_varint_reads_back(s: Seq<u8>, at: int, v: nat, more: nat, last: nat)
    requires
        v < varint_cap(more, last),
        last < 128,
        holds(s, at, varint(v)),
    ensures
        read_varint(s, at, more, last) == Ok::<(nat, int), DecodeError>(
            (v, at + varint(v).len()),
        ),
    decreases more,
{
    if v < 128 {
        assert(varint(v)[0] == v as u8);
        assert(s[at + 0] == v as u8);
        if more == 0 {
            assert(v <= last);
        }
    } else {
        assert(more > 0);
        let head = seq![(128 + v % 128) as u8];
        lemma_holds_add(s, at, head, varint(v / 128));
        assert(head[0] == (128 + v % 128) as u8);
        assert(s[at + 0] == head[0]);
        assert(v / 128 < varint_cap((more - 1) as nat, last));
        lemma_varint_reads_back(s, at + 1, v / 128, (more - 1) as nat, last);
        assert(v == v % 128 + 128 * (v / 128));
    }
}

proof fn lemma_varint_advances(s: Seq<u8>, at: int, more: nat, last: nat)
    requires
        0 <= at <= s.len(),
    ensures
        read_varint(s, at, more, last) matches Ok((v, end)) ==> at < end <= s.len(),
    decreases more,
{
    if at < s.len() && s[at] >= 128 && more > 0 {
        lemma_varint_advances(s, at + 1, (more - 1) as nat, last);
    }
}

/// Calls `postcard::to_extend` on a `u64`, which appends the varint of the number to the buffer. A
/// growable buffer takes it in any case.
#[verifier::external_body]
fn postcard_put(v: u64, buffer: Vec<u8>) -> (r: Option<Vec<u8>>)
    ensures
        r is Some,
        r->0@ == buffer@ + varint(v as nat),
{
    postcard::to_extend(&v, buffer).ok()
}

/// Calls `postcard::take_from_bytes` for a `u16`, which reads a varint of at most three bytes from the
/// front and hands back the number and the bytes behind it. Only their count is kept.
#[verifier::external_body]
fn postcard_take_u16(bytes: &[u8]) -> (r: Result<(u16, usize), DecodeError>)
    ensures
        match (r, read_varint(bytes@, 0, 2, 3)) {
            (Ok((v, rest)), Ok((w, end))) => v == w && rest == bytes@.len() - end,
            (Err(a), Err(b)) => a == b,
            _ => false,
        },
{
    match postcard::take_from_bytes::<u16>(bytes) {
        Ok((v, rest)) => Ok((v, rest.len())),
        Err(postcard::Error::DeserializeUnexpectedEnd) => Err(DecodeError::UnexpectedEnd),
        Err(_) => Err(DecodeError::BadVarint),
    }
}

/// Calls `postcard::take_from_bytes` for a `u32`, which reads a varint of at most five bytes from the
/// front and hands back the number and the bytes behind it. Only their count is kept.
#[verifier::external_body]
fn postcard_take_u32(bytes: &[u8]) -> (r: Result<(u32, usize), DecodeError>)
    ensures
        match (r, read_varint(bytes@, 0, 4, 15)) {
            (Ok((v, rest)), Ok((w, end))) => v == w && rest == bytes@.len() - end,
            (Err(a), Err(b)) => a == b,
            _ => false,
        },
{
    match postcard::take_from_bytes::<u32>(bytes) {
        Ok((v, rest)) => Ok((v, rest.len())),
        Err(postcard::Error::DeserializeUnexpectedEnd) => Err(DecodeError::UnexpectedEnd),
        Err(_) => Err(DecodeError::BadVarint),
    }
}

/// Calls `postcard::take_from_bytes` for a `u64`, which reads a varint of at most ten bytes from the
/// front and hands back the number and the bytes behind it. Only their count is kept.
#[verifier::external_body]
fn postcard_take_u64(bytes: &[u8]) -> (r: Result<(u64, usize), DecodeError>)
    ensures
        match (r, read_varint(bytes@, 0, 9, 1)) {
            (Ok((v, rest)), Ok((w, end))) => v == w && rest == bytes@.len() - end,
            (Err(a), Err(b)) => a == b,
            _ => false,
        },
{
    match postcard::take_from_bytes::<u64>(bytes) {
        Ok((v, rest)) => Ok((v, rest.len())),
        Err(postcard::Error::DeserializeUnexpectedEnd) => Err(DecodeError::UnexpectedEnd),
        Err(_) => Err(DecodeError::BadVarint),
    }
}

proof fn lemma_varint_shifts(s: Seq<u8>, start: int, at: int, more: nat, last: nat)
    requires
        0 <= start <= s.len(),
        0 <= at,
    ensures
        match (
            read_varint(s, start + at, more, last),
            read_varint(s.subrange(start, s.len() as int), at, more, last),
        ) {
            (Ok((v, end)), Ok((w, e))) => v == w && end == start + e,
            (Err(a), Err(b)) => a == b,
            _ => false,
        },
    decreases more,
{
    if more > 0 {
        lemma_varint_shifts(s, start, at + 1, (more - 1) as nat, last);
    }
}

fn put_varint(v: u64, out: &mut Vec<u8>)
    ensures
        final(out)@ == old(out)@ + varint(v as nat),
{
    let mut buffer: Vec<u8> = Vec::new();
    std::mem::swap(out, &mut buffer);
    if let Some(buffer) = postcard_put(v, buffer) {
        *out = buffer;
    }
}

pub proof fn lemma_cap_values()
    ensures
        varint_cap(2, 3) == 0x1_0000,
        varint_cap(4, 15) == 0x1_0000_0000,
        varint_cap(9, 1) == 0x1_0000_0000_0000_0000,
{
    reveal_with_fuel(varint_cap, 11);
}

impl Wire for u64 {
    open spec fn encoding(v: u64) -> Seq<u8> {
        varint(v as nat)
    }

    open spec fn read(s: Seq<u8>, at: int) -> Result<(u64, int), DecodeError> {
        map_read(read_varint(s, at, 9, 1), |v: nat| v as u64)
    }

    open spec fn is_whole(v: u64) -> bool {
        true
    }

    proof fn reads_back(s: Seq<u8>, at: int, v: u64) {
        lemma_cap_values();
        lemma_varint_reads_back(s, at, v as nat, 9, 1);
    }

    proof fn advances(s: Seq<u8>, at: int) {
        lemma_varint_advances(s, at, 9, 1);
    }

    fn put(&self, out: &mut Vec<u8>) {
        put_varint(*self, out);
    }

    fn take(bytes: &[u8], at: usize) -> (r: Result<(Self, usize), DecodeError>) {
        proof {
            lemma_varint_shifts(bytes@, at as int, 0, 9, 1);
            lemma_varint_advances(bytes@, at as int, 9, 1);
        }
        match postcard_take_u64(slice_subrange(bytes, at, bytes.len())) {
            Ok((v, rest)) => Ok((v, bytes.len() - rest)),
            Err(e) => Err(e),
        }
    }
}

impl Wire for u32 {
    open spec fn encoding(v: u32) -> Seq<u8> {
        varint(v as nat)
    }

    open spec fn read(s: Seq<u8>, at: int) -> Result<(u32, int), DecodeError> {
        map_read(read_varint(s, at, 4, 15), |v: nat| v as u32)
    }

    open spec fn is_whole(v: u32) -> bool {
        true
    }

    proof fn reads_back(s: Seq<u8>, at: int, v: u32) {
        lemma_cap_values();
        lemma_varint_reads_back(s, at, v as nat, 4, 15);
    }

    proof fn advances(s: Seq<u8>, at: int) {
        lemma_varint_advances(s, at, 4, 15);
    }

    fn put(&self, out: &mut Vec<u8>) {
        put_varint(*self as u64, out);
    }

    fn take(bytes: &[u8], at: usize) -> (r: Result<(Self, usize), DecodeError>) {
        proof {
            lemma_varint_shifts(bytes@, at as int, 0, 4, 15);
            lemma_varint_advances(bytes@, at as int, 4, 15);
        }
        match postcard_take_u32(slice_subrange(bytes, at, bytes.len())) {
            Ok((v, rest)) => Ok((v, bytes.len() - rest)),
            Err(e) => Err(e),
        }
    }
}

impl Wire for u16 {
    open spec fn encoding(v: u16) -> Seq<u8> {
        varint(v as nat)
    }

    open spec fn read(s: Seq<u8>, at: int) -> Result<(u16, int), DecodeError> {
        map_read(read_varint(s, at, 2, 3), |v: nat| v as u16)
    }

    open spec fn is_whole(v: u16) -> bool {
        true
    }

    proof fn reads_back(s: Seq<u8>, at: int, v: u16) {
        lemma_cap_values();
        lemma_varint_reads_back(s, at, v as nat, 2, 3);
    }

    proof fn advances(s: Seq<u8>, at: int) {
        lemma_varint_advances(s, at, 2, 3);
    }

    fn put(&self, out: &mut Vec<u8>) {
        put_varint(*self as u64, out);
    }

    fn take(bytes: &[u8], at: usize) -> (r: Result<(Self, usize), DecodeError>) {
        proof {
            lemma_varint_shifts(bytes@, at as int, 0, 2, 3);
            lemma_varint_advances(bytes@, at as int, 2, 3);
        }
        match postcard_take_u16(slice_subrange(bytes, at, bytes.len())) {
            Ok((v, rest)) => Ok((v, bytes.len() - rest)),
            Err(e) => Err(e),
        }
    }
}

impl Wire for u8 {
    open spec fn encoding(v: u8) -> Seq<u8> {
        seq![v]
    }

    open spec fn read(s: Seq<u8>, at: int) -> Result<(u8, int), DecodeError> {
        if at >= s.len() {
            Err(DecodeError::UnexpectedEnd)
        } else {
            Ok((s[at], at + 1))
        }
    }

    open spec fn is_whole(v: u8) -> bool {
        true
    }

    proof fn reads_back(s: Seq<u8>, at: int, v: u8) {
        assert(seq![v][0] == v);
        assert(s[at + 0] == v);
    }

    proof fn advances(s: Seq<u8>, at: int) {
    }

    fn put(&self, out: &mut Vec<u8>) {
        out.push(*self);
        assert(out@ =~= old(out)@ + seq![*self]);
    }

    fn take(bytes: &[u8], at: usize) -> (r: Result<(Self, usize), DecodeError>) {
        if at >= bytes.len() {
            Err(DecodeError::UnexpectedEnd)
        } else {
            Ok((bytes[at], at + 1))
        }
    }
}

impl Wire for bool {
    open spec fn encoding(v: bool) -> Seq<u8> {
        seq![if v { 1u8 } else { 0u8 }]
    }

    open spec fn read(s: Seq<u8>, at: int) -> Result<(bool, int), DecodeError> {
        if at >= s.len() {
            Err(DecodeError::UnexpectedEnd)
        } else if s[at] > 1 {
            Err(DecodeError::BadBool)
        } else {
            Ok((s[at] == 1, at + 1))
        }
    }

    open spec fn is_whole(v: bool) -> bool {
        true
    }

    proof fn reads_back(s: Seq<u8>, at: int, v: bool) {
        assert(Self::encoding(v)[0] == (if v { 1u8 } else { 0u8 }));
        assert(s[at + 0] == Self::encoding(v)[0]);
    }

    proof fn advances(s: Seq<u8>, at: int) {
    }

    fn put(&self, out: &mut Vec<u8>) {
        out.push(if *self { 1u8 } else { 0u8 });
        assert(out@ =~= old(out)@ + Self::encoding(*self));
    }

    fn take(bytes: &[u8], at: usize) -> (r: Result<(Self, usize), DecodeError>) {
        if at >= bytes.len() {
            Err(DecodeError::UnexpectedEnd)
        } else if bytes[at] > 1 {
            Err(DecodeError::BadBool)
        } else {
            Ok((bytes[at] == 1, at + 1))
        }
    }
}

impl<T: Wire> Wire for Option<T> {
    open spec fn encoding(v: Option<T::V>) -> Seq<u8> {
        match v {
            None => seq![0u8],
            Some(v) => seq![1u8] + T::encoding(v),
        }
    }

    open spec fn read(s: Seq<u8>, at: int) -> Result<(Option<T::V>, int), DecodeError> {
        if at >= s.len() {
            Err(DecodeError::UnexpectedEnd)
        } else if s[at] == 0 {
            Ok((None, at + 1))
        } else if s[at] == 1 {
            map_read(T::read(s, at + 1), |v: T::V| Some(v))
        } else {
            Err(DecodeError::BadOption)
        }
    }

    open spec fn is_whole(v: Option<T::V>) -> bool {
        v matches Some(v) ==> T::is_whole(v)
    }

    proof fn reads_back(s: Seq<u8>, at: int, v: Option<T::V>) {
        match v {
            None => {
                assert(seq![0u8][0] == 0u8);
                assert(s[at + 0] == 0u8);
            },
            Some(v) => {
                lemma_holds_add(s, at, seq![1u8], T::encoding(v));
                assert(seq![1u8][0] == 1u8);
                assert(s[at + 0] == 1u8);
                T::reads_back(s, at + 1, v);
            },
        }
    }

    proof fn advances(s: Seq<u8>, at: int) {
        if at < s.len() {
            T::advances(s, at + 1);
        }
    }

    fn put(&self, out: &mut Vec<u8>) {
        match self {
            None => {
                out.push(0);
                assert(out@ =~= old(out)@ + seq![0u8]);
            },
            Some(value) => {
                out.push(1);
                value.put(out);
                assert(out@ =~= old(out)@ + (seq![1u8] + T::encoding(value.deep_view())));
            },
        }
    }

    fn take(bytes: &[u8], at: usize) -> (r: Result<(Self, usize), DecodeError>) {
        if at >= bytes.len() {
            return Err(DecodeError::UnexpectedEnd);
        }
        let tag: u8 = bytes[at];
        if tag == 0 {
            Ok((None, at + 1))
        } else if tag == 1 {
            match T::take(bytes, at + 1) {
                Ok((value, end)) => Ok((Some(value), end)),
                Err(e) => Err(e),
            }
        } else {
            Err(DecodeError::BadOption)
        }
    }
}

/// A pair is one value behind the other.
impl<A: Wire, B: Wire> Wire for (A, B) {
    open spec fn encoding(v: (A::V, B::V)) -> Seq<u8> {
        A::encoding(v.0) + B::encoding(v.1)
    }

    open spec fn read(s: Seq<u8>, at: int) -> Result<((A::V, B::V), int), DecodeError> {
        match A::read(s, at) {
            Ok((a, mid)) => map_read(B::read(s, mid), |b: B::V| (a, b)),
            Err(e) => Err(e),
        }
    }

    open spec fn is_whole(v: (A::V, B::V)) -> bool {
        A::is_whole(v.0) && B::is_whole(v.1)
    }

    proof fn reads_back(s: Seq<u8>, at: int, v: (A::V, B::V)) {
        lemma_holds_add(s, at, A::encoding(v.0), B::encoding(v.1));
        A::reads_back(s, at, v.0);
        B::reads_back(s, at + A::encoding(v.0).len(), v.1);
    }

    proof fn advances(s: Seq<u8>, at: int) {
        A::advances(s, at);
        if let Ok((a, mid)) = A::read(s, at) {
            B::advances(s, mid);
        }
    }

    fn put(&self, out: &mut Vec<u8>) {
        self.0.put(out);
        self.1.put(out);
        assert(out@ =~= old(out)@ + Self::encoding(self.deep_view()));
    }

    fn take(bytes: &[u8], at: usize) -> (r: Result<(Self, usize), DecodeError>) {
        match A::take(bytes, at) {
            Ok((a, mid)) => {
                proof {
                    A::advances(bytes@, at as int);
                }
                match B::take(bytes, mid) {
                    Ok((b, end)) => Ok(((a, b), end)),
                    Err(e) => Err(e),
                }
            },
            Err(e) => Err(e),
        }
    }
}

/// The encodings one after the other.
pub open spec fn encodings<T: Wire>(vs: Seq<T::V>) -> Seq<u8>
    decreases vs.len(),
{
    if vs.len() == 0 {
        Seq::empty()
    } else {
        encodings::<T>(vs.drop_last()) + T::encoding(vs.last())
    }
}

/// Reads `n` values one after the other.
pub open spec fn read_many<T: Wire>(s: Seq<u8>, at: int, n: nat) -> Result<
    (Seq<T::V>, int),
    DecodeError,
>
    decreases n,
{
    if n == 0 {
        Ok((Seq::empty(), at))
    } else {
        match read_many::<T>(s, at, (n - 1) as nat) {
            Ok((vs, mid)) => match T::read(s, mid) {
                Ok((v, end)) => Ok((vs.push(v), end)),
                Err(e) => Err(e),
            },
            Err(e) => Err(e),
        }
    }
}

proof fn lemma_many_read_back<T: Wire>(s: Seq<u8>, at: int, vs: Seq<T::V>)
    requires
        forall|i: int| 0 <= i < vs.len() ==> T::is_whole(#[trigger] vs[i]),
        holds(s, at, encodings::<T>(vs)),
    ensures
        read_many::<T>(s, at, vs.len()) == Ok::<(Seq<T::V>, int), DecodeError>(
            (vs, at + encodings::<T>(vs).len()),
        ),
    decreases vs.len(),
{
    if vs.len() > 0 {
        let rest = vs.drop_last();
        lemma_holds_add(s, at, encodings::<T>(rest), T::encoding(vs.last()));
        assert forall|i: int| 0 <= i < rest.len() implies T::is_whole(#[trigger] rest[i]) by {
            assert(rest[i] == vs[i]);
        }
        lemma_many_read_back::<T>(s, at, rest);
        assert(T::is_whole(vs[vs.len() - 1]));
        T::reads_back(s, at + encodings::<T>(rest).len(), vs.last());
        assert(rest.push(vs.last()) =~= vs);
    } else {
        assert(vs =~= Seq::empty());
    }
}

proof fn lemma_many_advance<T: Wire>(s: Seq<u8>, at: int, n: nat)
    requires
        0 <= at <= s.len(),
    ensures
        read_many::<T>(s, at, n) matches Ok((vs, end)) ==> at + n <= end <= s.len() && vs.len()
            == n,
    decreases n,
{
    if n > 0 {
        lemma_many_advance::<T>(s, at, (n - 1) as nat);
        if let Ok((vs, mid)) = read_many::<T>(s, at, (n - 1) as nat) {
            T::advances(s, mid);
        }
    }
}

proof fn lemma_many_stop<T: Wire>(s: Seq<u8>, at: int, k: nat, n: nat)
    requires
        k <= n,
        read_many::<T>(s, at, k) is Err,
    ensures
        read_many::<T>(s, at, n) == read_many::<T>(s, at, k),
    decreases n - k,
{
    if k < n {
        lemma_many_stop::<T>(s, at, k, (n - 1) as nat);
    }
}

impl<T: Wire> Wire for Vec<T> {
    open spec fn encoding(v: Seq<T::V>) -> Seq<u8> {
        varint(v.len()) + encodings::<T>(v)
    }

    open spec fn read(s: Seq<u8>, at: int) -> Result<(Seq<T::V>, int), DecodeError> {
        match <u64 as Wire>::read(s, at) {
            Ok((n, mid)) => read_many::<T>(s, mid, n as nat),
            Err(e) => Err(e),
        }
    }

    open spec fn is_whole(v: Seq<T::V>) -> bool {
        &&& v.len() <= u64::MAX
        &&& forall|i: int| 0 <= i < v.len() ==> T::is_whole(#[trigger] v[i])
    }

    proof fn reads_back(s: Seq<u8>, at: int, v: Seq<T::V>) {
        lemma_holds_add(s, at, varint(v.len()), encodings::<T>(v));
        <u64 as Wire>::reads_back(s, at, v.len() as u64);
        lemma_many_read_back::<T>(s, at + varint(v.len()).len(), v);
    }

    proof fn advances(s: Seq<u8>, at: int) {
        <u64 as Wire>::advances(s, at);
        if let Ok((n, mid)) = <u64 as Wire>::read(s, at) {
            lemma_many_advance::<T>(s, mid, n as nat);
        }
    }

    fn put(&self, out: &mut Vec<u8>) {
        let ghost vs = self.deep_view();
        put_varint(self.len() as u64, out);
        let ghost start = old(out)@ + varint(vs.len());
        let mut i: usize = 0;
        assert(vs.take(0) =~= Seq::empty());
        assert(out@ =~= start + encodings::<T>(vs.take(0)));
        while i < self.len()
            invariant
                i <= self@.len(),
                vs == self.deep_view(),
                vs.len() == self@.len(),
                out@ == start + encodings::<T>(vs.take(i as int)),
            decreases self@.len() - i,
        {
            self[i].put(out);
            proof {
                assert(vs.take(i + 1).drop_last() =~= vs.take(i as int));
                assert(vs.take(i + 1).last() == self@[i as int].deep_view());
                assert(out@ =~= start + encodings::<T>(vs.take(i + 1)));
            }
            i = i + 1;
        }
        assert(vs.take(i as int) =~= vs);
        assert(out@ =~= old(out)@ + Self::encoding(vs));
    }

    fn take(bytes: &[u8], at: usize) -> (r: Result<(Self, usize), DecodeError>) {
        let (n, start) = match u64::take(bytes, at) {
            Ok(r) => r,
            Err(e) => {
                return Err(e);
            },
        };
        proof {
            <u64 as Wire>::advances(bytes@, at as int);
        }
        let mut values: Vec<T> = Vec::new();
        let mut end: usize = start;
        let mut i: u64 = 0;
        assert(values.deep_view() =~= Seq::empty());
        while i < n
            invariant
                i <= n,
                start <= end <= bytes@.len(),
                <u64 as Wire>::read(bytes@, at as int) == Ok::<(u64, int), DecodeError>(
                    (n, start as int),
                ),
                read_many::<T>(bytes@, start as int, i as nat) == Ok::<
                    (Seq<T::V>, int),
                    DecodeError,
                >((values.deep_view(), end as int)),
            decreases n - i,
        {
            match T::take(bytes, end) {
                Ok((value, next)) => {
                    proof {
                        T::advances(bytes@, end as int);
                        assert(values.deep_view().push(value.deep_view()) =~= Seq::new(
                            values@.push(value).len(),
                            |j: int| values@.push(value)[j].deep_view(),
                        ));
                    }
                    values.push(value);
                    end = next;
                },
                Err(e) => {
                    proof {
                        lemma_many_stop::<T>(bytes@, start as int, (i + 1) as nat, n as nat);
                    }
                    return Err(e);
                },
            }
            i = i + 1;
        }
        Ok((values, end))
    }
}

/// Calls `String::from_utf8`, which hands back the text the bytes encode if they are UTF-8 and an
/// error otherwise.
#[verifier::external_body]
fn string_from_utf8(bytes: Vec<u8>) -> (r: Option<String>)
    ensures
        r is Some == valid_utf8(bytes@),
        r matches Some(s) ==> s@ == decode_utf8(bytes@),
{
    String::from_utf8(bytes).ok()
}

proof fn lemma_bytes_encodings(bytes: Seq<u8>)
    ensures
        encodings::<u8>(bytes) == bytes,
    decreases bytes.len(),
{
    if bytes.len() > 0 {
        lemma_bytes_encodings(bytes.drop_last());
        assert(encodings::<u8>(bytes) =~= bytes.drop_last() + seq![bytes.last()]);
        assert(bytes.drop_last() + seq![bytes.last()] =~= bytes);
    } else {
        assert(encodings::<u8>(bytes) =~= bytes);
    }
}

/// A byte string is its length followed by the bytes themselves.
pub proof fn lemma_bytes_encoding(bytes: Seq<u8>)
    ensures
        <Vec<u8> as Wire>::encoding(bytes) == varint(bytes.len()) + bytes,
{
    lemma_bytes_encodings(bytes);
}

impl Wire for String {
    open spec fn encoding(v: Seq<char>) -> Seq<u8> {
        <Vec<u8> as Wire>::encoding(encode_utf8(v))
    }

    open spec fn read(s: Seq<u8>, at: int) -> Result<(Seq<char>, int), DecodeError> {
        match <Vec<u8> as Wire>::read(s, at) {
            Ok((bytes, end)) => if valid_utf8(bytes) {
                Ok((decode_utf8(bytes), end))
            } else {
                Err(DecodeError::BadUtf8)
            },
            Err(e) => Err(e),
        }
    }

    open spec fn is_whole(v: Seq<char>) -> bool {
        encode_utf8(v).len() <= u64::MAX
    }

    proof fn reads_back(s: Seq<u8>, at: int, v: Seq<char>) {
        vstd::utf8::encode_utf8_valid_utf8(v);
        vstd::utf8::encode_utf8_decode_utf8(v);
        <Vec<u8> as Wire>::reads_back(s, at, encode_utf8(v));
    }

    proof fn advances(s: Seq<u8>, at: int) {
        <Vec<u8> as Wire>::advances(s, at);
    }

    fn put(&self, out: &mut Vec<u8>) {
        let bytes = self.as_str().as_bytes();
        put_varint(bytes.len() as u64, out);
        let ghost start = out@;
        let mut i: usize = 0;
        assert(bytes@.take(0) =~= Seq::empty());
        assert(out@ =~= start + bytes@.take(0));
        while i < bytes.len()
            invariant
                i <= bytes@.len(),
                out@ == start + bytes@.take(i as int),
            decreases bytes@.len() - i,
        {
            out.push(bytes[i]);
            i = i + 1;
            assert(out@ =~= start + bytes@.take(i as int));
        }
        proof {
            assert(bytes@.take(i as int) =~= bytes@);
            lemma_bytes_encoding(bytes@);
            assert(out@ =~= old(out)@ + Self::encoding(self.deep_view()));
        }
    }

    fn take(bytes: &[u8], at: usize) -> (r: Result<(Self, usize), DecodeError>) {
        match <Vec<u8> as Wire>::take(bytes, at) {
            Ok((utf8, end)) => {
                assert(utf8.deep_view() =~= utf8@);
                match string_from_utf8(utf8) {
                    Some(s) => Ok((s, end)),
                    None => Err(DecodeError::BadUtf8),
                }
            },
            Err(e) => Err(e),
        }
    }
}

/// The last `n` base 256 digits, the most significant one first.
pub open spec fn be_bytes(v: nat, n: nat) -> Seq<u8>
    decreases n,
{
    if n == 0 {
        Seq::empty()
    } else {
        be_bytes(v / 256, (n - 1) as nat).push((v % 256) as u8)
    }
}

/// The number whose base 256 digits the bytes are.
pub open spec fn be_value(s: Seq<u8>) -> nat
    decreases s.len(),
{
    if s.len() == 0 {
        0
    } else {
        be_value(s.drop_last()) * 256 + s.last() as nat
    }
}

pub open spec fn be_cap(n: nat) -> nat
    decreases n,
{
    if n == 0 {
        1
    } else {
        256 * be_cap((n - 1) as nat)
    }
}

pub proof fn lemma_be_len(v: nat, n: nat)
    ensures
        be_bytes(v, n).len() == n,
    decreases n,
{
    if n > 0 {
        lemma_be_len(v / 256, (n - 1) as nat);
    }
}

proof fn lemma_be_value(v: nat, n: nat)
    requires
        v < be_cap(n),
    ensures
        be_value(be_bytes(v, n)) == v,
    decreases n,
{
    if n > 0 {
        lemma_be_value(v / 256, (n - 1) as nat);
        assert(be_bytes(v, n).drop_last() =~= be_bytes(v / 256, (n - 1) as nat));
    }
}

proof fn lemma_be_bound(s: Seq<u8>)
    ensures
        be_value(s) < be_cap(s.len()),
    decreases s.len(),
{
    if s.len() > 0 {
        lemma_be_bound(s.drop_last());
    }
}

pub proof fn lemma_be_caps()
    ensures
        be_cap(4) == 0x1_0000_0000,
        be_cap(15) == 0x100_0000_0000_0000_0000_0000_0000_0000,
        be_cap(16) == 0x1_0000_0000_0000_0000_0000_0000_0000_0000,
{
    reveal_with_fuel(be_cap, 17);
}

/// Reads `n` base 256 digits.
pub open spec fn read_be(s: Seq<u8>, at: int, n: nat) -> Result<(nat, int), DecodeError> {
    if at + n > s.len() {
        Err(DecodeError::UnexpectedEnd)
    } else {
        Ok((be_value(s.subrange(at, at + n)), at + n))
    }
}

pub proof fn lemma_be_reads_back(s: Seq<u8>, at: int, v: nat, n: nat)
    requires
        v < be_cap(n),
        holds(s, at, be_bytes(v, n)),
    ensures
        read_be(s, at, n) == Ok::<(nat, int), DecodeError>((v, at + n)),
{
    lemma_be_len(v, n);
    lemma_be_value(v, n);
    assert(s.subrange(at, at + n) =~= be_bytes(v, n)) by {
        assert forall|i: int| 0 <= i < n implies s.subrange(at, at + n)[i] == be_bytes(v, n)[i] by {
            assert(s[at + i] == be_bytes(v, n)[i]);
        }
    }
}

pub fn put_be(v: u128, n: u8, out: &mut Vec<u8>)
    ensures
        final(out)@ == old(out)@ + be_bytes(v as nat, n as nat),
    decreases n,
{
    if n > 0 {
        let ghost before = out@;
        put_be(v / 256, n - 1, out);
        out.push((v % 256) as u8);
        assert(out@ =~= before + be_bytes(v as nat, n as nat));
    } else {
        assert(out@ =~= old(out)@ + Seq::<u8>::empty());
    }
}

pub fn take_be(bytes: &[u8], at: usize, n: u8) -> (r: Result<(u128, usize), DecodeError>)
    requires
        at <= bytes@.len(),
        n <= 16,
    ensures
        match (r, read_be(bytes@, at as int, n as nat)) {
            (Ok((v, end)), Ok((w, e))) => v == w && end == e && v < be_cap(n as nat),
            (Err(a), Err(b)) => a == b,
            _ => false,
        },
{
    if bytes.len() - at < n as usize {
        return Err(DecodeError::UnexpectedEnd);
    }
    let ghost digits = bytes@.subrange(at as int, at + n);
    let mut value: u128 = 0;
    let mut i: u8 = 0;
    assert(digits.take(0) =~= Seq::empty());
    while i < n
        invariant
            i <= n <= 16,
            at + n <= bytes@.len(),
            at + n <= usize::MAX,
            digits == bytes@.subrange(at as int, at + n),
            value == be_value(digits.take(i as int)),
        decreases n - i,
    {
        proof {
            lemma_be_bound(digits.take(i as int));
            lemma_be_caps();
            lemma_be_monotone(i as nat, 15);
            assert(digits.take(i + 1).drop_last() =~= digits.take(i as int));
        }
        let digit: u8 = bytes[at + i as usize];
        assert(digits.take(i + 1).last() == digit);
        value = value * 256 + digit as u128;
        i = i + 1;
    }
    proof {
        assert(digits.take(i as int) =~= digits);
        lemma_be_bound(digits);
    }
    Ok((value, at + n as usize))
}

proof fn lemma_be_monotone(i: nat, j: nat)
    requires
        i <= j,
    ensures
        be_cap(i) <= be_cap(j),
        be_cap(i) >= 1,
    decreases j,
{
    if i < j {
        lemma_be_monotone(i, (j - 1) as nat);
    } else if j > 0 {
        lemma_be_monotone((i - 1) as nat, (j - 1) as nat);
    }
}

/// A sixteen byte identity is written as a byte string.
pub open spec fn identity_encoding(v: u128) -> Seq<u8> {
    varint(16) + be_bytes(v as nat, 16)
}

pub open spec fn read_identity(s: Seq<u8>, at: int) -> Result<(u128, int), DecodeError> {
    match <u64 as Wire>::read(s, at) {
        Ok((n, mid)) => if mid + n > s.len() {
            Err(DecodeError::UnexpectedEnd)
        } else if n != 16 {
            Err(DecodeError::BadIdentity)
        } else {
            map_read(read_be(s, mid, 16), |v: nat| v as u128)
        },
        Err(e) => Err(e),
    }
}

pub proof fn lemma_identity_reads_back(s: Seq<u8>, at: int, v: u128)
    requires
        holds(s, at, identity_encoding(v)),
    ensures
        read_identity(s, at) == Ok::<(u128, int), DecodeError>((v, at + 17)),
        identity_encoding(v).len() == 17,
{
    lemma_be_len(v as nat, 16);
    lemma_be_caps();
    lemma_holds_add(s, at, varint(16), be_bytes(v as nat, 16));
    assert(varint(16) =~= seq![16u8]);
    <u64 as Wire>::reads_back(s, at, 16);
    lemma_be_reads_back(s, at + 1, v as nat, 16);
}

pub proof fn lemma_identity_advances(s: Seq<u8>, at: int)
    requires
        0 <= at <= s.len(),
    ensures
        read_identity(s, at) matches Ok((v, end)) ==> at < end <= s.len(),
{
    <u64 as Wire>::advances(s, at);
}

pub fn put_identity(v: u128, out: &mut Vec<u8>)
    ensures
        final(out)@ == old(out)@ + identity_encoding(v),
{
    put_varint(16, out);
    put_be(v, 16, out);
    assert(out@ =~= old(out)@ + identity_encoding(v));
}

pub fn take_identity(bytes: &[u8], at: usize) -> (r: Result<(u128, usize), DecodeError>)
    requires
        at <= bytes@.len(),
    ensures
        match (r, read_identity(bytes@, at as int)) {
            (Ok((v, end)), Ok((w, e))) => v == w && end == e,
            (Err(a), Err(b)) => a == b,
            _ => false,
        },
{
    match u64::take(bytes, at) {
        Ok((n, mid)) => {
            proof {
                <u64 as Wire>::advances(bytes@, at as int);
                lemma_be_caps();
            }
            if n > (bytes.len() - mid) as u64 {
                Err(DecodeError::UnexpectedEnd)
            } else if n != 16 {
                Err(DecodeError::BadIdentity)
            } else {
                take_be(bytes, mid, 16)
            }
        },
        Err(e) => Err(e),
    }
}

} // verus!
