//! Canonical bytes: what is hashed and signed. Every layout is prefix-free,
//! so equal bytes mean equal content.

use crate::model;
use crate::model::{
    Anchor, AnchorV, AppliedEntry, AppliedGroup, AttestationV, BlockV, ChainBlock, ChainChange,
    ChangeV, CheckpointState, DeclarationV, EntryV, GroupV, IdentityV, MemberIdentity,
    MembershipOp, RelayDeclaration, RosterAttestation, SummaryV, Surface,
};
use crate::payload::{FieldV, Payload, PayloadV};
use vstd::prelude::*;
use vstd::string::*;
use vstd::utf8::*;

verus! {

/// A number in groups of seven bits, least significant group first; every
/// byte but the last has its high bit set.
pub open spec fn number_bytes(n: nat) -> Seq<u8>
    decreases n,
{
    if n < 128 {
        seq![n as u8]
    } else {
        seq![(128 + n % 128) as u8] + number_bytes(n / 128)
    }
}

/// A number's bytes end by themselves.
pub proof fn lemma_number_prefix_free(a: nat, b: nat, x: Seq<u8>, y: Seq<u8>)
    requires
        number_bytes(a) + x == number_bytes(b) + y,
    ensures
        a == b,
        x == y,
    decreases a,
{
    let l = number_bytes(a) + x;
    let r = number_bytes(b) + y;
    assert(l[0] == r[0]);
    if a < 128 {
        assert(l[0] == a);
        if b < 128 {
            assert(r[0] == b);
            assert(x =~= l.skip(1));
            assert(y =~= r.skip(1));
        } else {
            assert(r[0] == (128 + b % 128) as u8);
        }
    } else {
        assert(l[0] == (128 + a % 128) as u8);
        if b < 128 {
            assert(r[0] == b);
        } else {
            assert(r[0] == (128 + b % 128) as u8);
            assert(l.skip(1) =~= number_bytes(a / 128) + x);
            assert(r.skip(1) =~= number_bytes(b / 128) + y);
            lemma_number_prefix_free(a / 128, b / 128, x, y);
        }
    }
}

/// Appends a number's bytes.
pub fn put_number(out: &mut Vec<u8>, n: u64)
    ensures
        final(out)@ == old(out)@ + number_bytes(n as nat),
    decreases n,
{
    if n < 128 {
        out.push(n as u8);
        assert(out@ =~= old(out)@ + number_bytes(n as nat));
    } else {
        out.push((128 + n % 128) as u8);
        put_number(out, n / 128);
        assert(out@ =~= old(out)@ + number_bytes(n as nat));
    }
}

/// Appends bytes as they are.
pub fn put_raw(out: &mut Vec<u8>, bytes: &[u8])
    ensures
        final(out)@ == old(out)@ + bytes@,
{
    let mut i: usize = 0;
    while i < bytes.len()
        invariant
            i <= bytes.len(),
            out@ == old(out)@ + bytes@.take(i as int),
        decreases bytes.len() - i,
    {
        out.push(bytes[i]);
        i = i + 1;
        assert(out@ =~= old(out)@ + bytes@.take(i as int));
    }
    assert(bytes@.take(i as int) =~= bytes@);
}

/// Concatenation associates.
pub proof fn lemma_cat(a: Seq<u8>, b: Seq<u8>, c: Seq<u8>)
    ensures
        (a + b) + c == a + (b + c),
{
    assert((a + b) + c =~= a + (b + c));
}

/// A text: the number of its bytes, then its bytes.
pub open spec fn text_bytes(t: Seq<char>) -> Seq<u8> {
    number_bytes(encode_utf8(t).len()) + encode_utf8(t)
}

/// A value with canonical bytes.
pub trait Canonical: DeepView {
    /// The canonical bytes of a value.
    spec fn bytes_of(v: Self::V) -> Seq<u8>;

    /// A value's bytes end by themselves, and no two values share them.
    proof fn prefix_free(a: Self::V, b: Self::V, x: Seq<u8>, y: Seq<u8>)
        requires
            Self::bytes_of(a) + x == Self::bytes_of(b) + y,
        ensures
            a == b,
            x == y,
    ;

    /// Appends the value's canonical bytes.
    fn put(&self, out: &mut Vec<u8>)
        ensures
            final(out)@ == old(out)@ + Self::bytes_of(self.deep_view()),
    ;
}

impl Canonical for u64 {
    open spec fn bytes_of(v: u64) -> Seq<u8> {
        number_bytes(v as nat)
    }

    proof fn prefix_free(a: u64, b: u64, x: Seq<u8>, y: Seq<u8>) {
        lemma_number_prefix_free(a as nat, b as nat, x, y);
    }

    fn put(&self, out: &mut Vec<u8>) {
        put_number(out, *self);
    }
}

impl Canonical for u8 {
    open spec fn bytes_of(v: u8) -> Seq<u8> {
        seq![v]
    }

    proof fn prefix_free(a: u8, b: u8, x: Seq<u8>, y: Seq<u8>) {
        let l = seq![a] + x;
        let r = seq![b] + y;
        assert(l[0] == a && r[0] == b);
        assert(x =~= l.skip(1));
        assert(y =~= r.skip(1));
    }

    fn put(&self, out: &mut Vec<u8>) {
        out.push(*self);
        assert(out@ =~= old(out)@ + seq![*self]);
    }
}

/// A framed run of bytes ends by itself.
proof fn lemma_framed_prefix_free(a: Seq<u8>, b: Seq<u8>, x: Seq<u8>, y: Seq<u8>)
    requires
        number_bytes(a.len()) + a + x == number_bytes(b.len()) + b + y,
    ensures
        a == b,
        x == y,
{
    assert(number_bytes(a.len()) + a + x =~= number_bytes(a.len()) + (a + x));
    assert(number_bytes(b.len()) + b + y =~= number_bytes(b.len()) + (b + y));
    lemma_number_prefix_free(a.len(), b.len(), a + x, b + y);
    assert(a =~= (a + x).take(a.len() as int));
    assert(b =~= (b + y).take(b.len() as int));
    assert(x =~= (a + x).skip(a.len() as int));
    assert(y =~= (b + y).skip(b.len() as int));
}

impl Canonical for String {
    open spec fn bytes_of(v: Seq<char>) -> Seq<u8> {
        text_bytes(v)
    }

    proof fn prefix_free(a: Seq<char>, b: Seq<char>, x: Seq<u8>, y: Seq<u8>) {
        lemma_framed_prefix_free(encode_utf8(a), encode_utf8(b), x, y);
        encode_utf8_decode_utf8(a);
        encode_utf8_decode_utf8(b);
    }

    fn put(&self, out: &mut Vec<u8>) {
        put_text(out, self.as_str());
    }
}

/// Appends a text's bytes.
pub fn put_text(out: &mut Vec<u8>, t: &str)
    ensures
        final(out)@ == old(out)@ + text_bytes(t@),
{
    let bytes = t.as_bytes();
    put_number(out, bytes.len() as u64);
    put_raw(out, bytes);
    assert(out@ =~= old(out)@ + text_bytes(t@));
}

impl<T: Canonical> Canonical for Option<T> {
    open spec fn bytes_of(v: Option<T::V>) -> Seq<u8> {
        match v {
            None => seq![0u8],
            Some(t) => seq![1u8] + T::bytes_of(t),
        }
    }

    proof fn prefix_free(a: Option<T::V>, b: Option<T::V>, x: Seq<u8>, y: Seq<u8>) {
        let l = Self::bytes_of(a) + x;
        let r = Self::bytes_of(b) + y;
        assert(l[0] == r[0]);
        match (a, b) {
            (None, None) => {
                assert(x =~= l.skip(1));
                assert(y =~= r.skip(1));
            },
            (Some(s), Some(t)) => {
                assert(l.skip(1) =~= T::bytes_of(s) + x);
                assert(r.skip(1) =~= T::bytes_of(t) + y);
                T::prefix_free(s, t, x, y);
            },
            _ => {
                assert(l[0] == 0 || r[0] == 0);
                assert(l[0] == 1 || r[0] == 1);
            },
        }
    }

    fn put(&self, out: &mut Vec<u8>) {
        match self {
            None => {
                out.push(0);
                assert(out@ =~= old(out)@ + seq![0u8]);
            },
            Some(t) => {
                out.push(1);
                t.put(out);
                assert(out@ =~= old(out)@ + (seq![1u8] + T::bytes_of(t.deep_view())));
            },
        }
    }
}

/// The bytes of the items, one after the other.
pub open spec fn items_bytes<T: Canonical>(items: Seq<T::V>) -> Seq<u8>
    decreases items.len(),
{
    if items.len() == 0 {
        Seq::empty()
    } else {
        T::bytes_of(items[0]) + items_bytes::<T>(items.skip(1))
    }
}

proof fn lemma_items_prefix_free<T: Canonical>(
    a: Seq<T::V>,
    b: Seq<T::V>,
    x: Seq<u8>,
    y: Seq<u8>,
)
    requires
        a.len() == b.len(),
        items_bytes::<T>(a) + x == items_bytes::<T>(b) + y,
    ensures
        a == b,
        x == y,
    decreases a.len(),
{
    if a.len() == 0 {
        assert(a =~= b);
        assert(items_bytes::<T>(a) + x =~= x);
        assert(items_bytes::<T>(b) + y =~= y);
    } else {
        let ra = items_bytes::<T>(a.skip(1));
        let rb = items_bytes::<T>(b.skip(1));
        assert(T::bytes_of(a[0]) + ra + x =~= T::bytes_of(a[0]) + (ra + x));
        assert(T::bytes_of(b[0]) + rb + y =~= T::bytes_of(b[0]) + (rb + y));
        T::prefix_free(a[0], b[0], ra + x, rb + y);
        lemma_items_prefix_free::<T>(a.skip(1), b.skip(1), x, y);
        assert(a =~= seq![a[0]] + a.skip(1));
        assert(b =~= seq![b[0]] + b.skip(1));
    }
}

/// The bytes of all items but the last, then of the last.
proof fn lemma_items_push<T: Canonical>(items: Seq<T::V>, last: T::V)
    ensures
        items_bytes::<T>(items.push(last)) == items_bytes::<T>(items) + T::bytes_of(last),
    decreases items.len(),
{
    let all = items.push(last);
    if items.len() == 0 {
        assert(all.skip(1) =~= Seq::empty());
        assert(items_bytes::<T>(all.skip(1)) =~= Seq::empty());
        assert(T::bytes_of(last) + Seq::<u8>::empty() =~= Seq::<u8>::empty() + T::bytes_of(last));
    } else {
        assert(all.skip(1) =~= items.skip(1).push(last));
        lemma_items_push::<T>(items.skip(1), last);
        assert(T::bytes_of(items[0]) + (items_bytes::<T>(items.skip(1)) + T::bytes_of(last))
            =~= T::bytes_of(items[0]) + items_bytes::<T>(items.skip(1)) + T::bytes_of(last));
    }
}

impl<T: Canonical> Canonical for Vec<T> {
    open spec fn bytes_of(v: Seq<T::V>) -> Seq<u8> {
        number_bytes(v.len()) + items_bytes::<T>(v)
    }

    proof fn prefix_free(a: Seq<T::V>, b: Seq<T::V>, x: Seq<u8>, y: Seq<u8>) {
        let ia = items_bytes::<T>(a);
        let ib = items_bytes::<T>(b);
        assert(number_bytes(a.len()) + ia + x =~= number_bytes(a.len()) + (ia + x));
        assert(number_bytes(b.len()) + ib + y =~= number_bytes(b.len()) + (ib + y));
        lemma_number_prefix_free(a.len(), b.len(), ia + x, ib + y);
        lemma_items_prefix_free::<T>(a, b, x, y);
    }

    fn put(&self, out: &mut Vec<u8>) {
        let ghost start = out@;
        let ghost all = self.deep_view();
        put_number(out, self.len() as u64);
        let mut i: usize = 0;
        assert(all.take(0) =~= Seq::empty());
        assert(out@ =~= start + (number_bytes(all.len()) + Seq::<u8>::empty()));
        while i < self.len()
            invariant
                i <= self.len(),
                all == self.deep_view(),
                out@ == start + (number_bytes(all.len()) + items_bytes::<T>(all.take(i as int))),
            decreases self.len() - i,
        {
            self[i].put(out);
            proof {
                lemma_items_push::<T>(all.take(i as int), all[i as int]);
                assert(all.take(i as int).push(all[i as int]) =~= all.take(i + 1));
                assert(out@ =~= start + (number_bytes(all.len()) + items_bytes::<T>(
                    all.take(i + 1),
                )));
            }
            i = i + 1;
        }
        assert(all.take(i as int) =~= all);
    }
}


// ---- the chain's own data

impl Canonical for Surface {
    open spec fn bytes_of(v: Surface) -> Seq<u8> {
        seq![model::surface_rank(v) as u8]
    }

    proof fn prefix_free(a: Surface, b: Surface, x: Seq<u8>, y: Seq<u8>) {
        <u8 as Canonical>::prefix_free(model::surface_rank(a) as u8, model::surface_rank(b) as u8, x, y);
    }

    fn put(&self, out: &mut Vec<u8>) {
        self.rank().put(out);
    }
}

/// Are two values the same? Their encodings are, and only then.
pub fn same_value<T: Canonical>(a: &T, b: &T) -> (r: bool)
    ensures
        r == (a.deep_view() == b.deep_view()),
{
    let mut x: Vec<u8> = Vec::new();
    let mut y: Vec<u8> = Vec::new();
    a.put(&mut x);
    b.put(&mut y);
    proof {
        let none = Seq::<u8>::empty();
        assert(x@ =~= T::bytes_of(a.deep_view()) + none);
        assert(y@ =~= T::bytes_of(b.deep_view()) + none);
        if x@ == y@ {
            T::prefix_free(a.deep_view(), b.deep_view(), none, none);
        }
    }
    same_bytes(&x, &y)
}

/// Are two byte strings the same?
fn same_bytes(a: &Vec<u8>, b: &Vec<u8>) -> (r: bool)
    ensures
        r == (a@ == b@),
{
    if a.len() != b.len() {
        return false;
    }
    let mut i: usize = 0;
    while i < a.len()
        invariant
            i <= a.len(),
            a.len() == b.len(),
            forall|k: int| 0 <= k < i ==> a@[k] == b@[k],
        decreases a.len() - i,
    {
        if a[i] != b[i] {
            return false;
        }
        i = i + 1;
    }
    assert(a@ =~= b@);
    true
}

/// The byte of a membership change's kind.
pub open spec fn op_byte(op: MembershipOp) -> u8 {
    match op {
        MembershipOp::Joined => 0,
        MembershipOp::Restored => 1,
    }
}

impl Canonical for MembershipOp {
    open spec fn bytes_of(v: MembershipOp) -> Seq<u8> {
        seq![op_byte(v)]
    }

    proof fn prefix_free(a: MembershipOp, b: MembershipOp, x: Seq<u8>, y: Seq<u8>) {
        <u8 as Canonical>::prefix_free(op_byte(a), op_byte(b), x, y);
    }

    fn put(&self, out: &mut Vec<u8>) {
        let kind: u8 = match self {
            MembershipOp::Joined => 0,
            MembershipOp::Restored => 1,
        };
        kind.put(out);
    }
}

/// The bytes of a payload: a byte for its kind, then its content.
pub open spec fn payload_bytes(v: PayloadV) -> Seq<u8>
    decreases v, 1int,
{
    seq![payload_kind(v)] + payload_body(v)
}

/// The bytes of a payload's content.
pub open spec fn payload_body(v: PayloadV) -> Seq<u8>
    decreases v, 0int,
{
    match v {
        PayloadV::Null => Seq::empty(),
        PayloadV::Bool(b) => seq![if b { 1u8 } else { 0u8 }],
        PayloadV::Count(n) => number_bytes(n as nat),
        PayloadV::Decimal(t) => text_bytes(t),
        PayloadV::Text(t) => text_bytes(t),
        PayloadV::List(items) => number_bytes(items.len()) + payload_list_bytes(items),
        PayloadV::Object(fields) => number_bytes(fields.len()) + field_list_bytes(fields),
    }
}

/// The bytes of a list's items, one after the other.
pub open spec fn payload_list_bytes(items: Seq<PayloadV>) -> Seq<u8>
    decreases items, 0int,
{
    if items.len() == 0 {
        Seq::empty()
    } else {
        payload_bytes(items[0]) + payload_list_bytes(items.skip(1))
    }
}

/// The bytes of an object's members, one after the other.
pub open spec fn field_list_bytes(fields: Seq<FieldV>) -> Seq<u8>
    decreases fields, 0int,
{
    if fields.len() == 0 {
        Seq::empty()
    } else {
        text_bytes(fields[0].name) + (payload_bytes(fields[0].value) + field_list_bytes(
            fields.skip(1),
        ))
    }
}

/// The first byte of a payload: its kind.
pub open spec fn payload_kind(v: PayloadV) -> u8 {
    match v {
        PayloadV::Null => 0,
        PayloadV::Bool(_) => 1,
        PayloadV::Count(_) => 2,
        PayloadV::Decimal(_) => 3,
        PayloadV::Text(_) => 4,
        PayloadV::List(_) => 5,
        PayloadV::Object(_) => 6,
    }
}

proof fn lemma_payload_prefix_free(a: PayloadV, b: PayloadV, x: Seq<u8>, y: Seq<u8>)
    requires
        payload_bytes(a) + x == payload_bytes(b) + y,
    ensures
        a == b,
        x == y,
    decreases a,
{
    lemma_cat(seq![payload_kind(a)], payload_body(a), x);
    lemma_cat(seq![payload_kind(b)], payload_body(b), y);
    <u8 as Canonical>::prefix_free(
        payload_kind(a),
        payload_kind(b),
        payload_body(a) + x,
        payload_body(b) + y,
    );
    match (a, b) {
        (PayloadV::Null, PayloadV::Null) => {
            assert(payload_body(a) + x =~= x);
            assert(payload_body(b) + y =~= y);
        },
        (PayloadV::Bool(s), PayloadV::Bool(t)) => {
            <u8 as Canonical>::prefix_free(
                if s {
                    1u8
                } else {
                    0u8
                },
                if t {
                    1u8
                } else {
                    0u8
                },
                x,
                y,
            );
        },
        (PayloadV::Count(s), PayloadV::Count(t)) => {
            lemma_number_prefix_free(s as nat, t as nat, x, y);
        },
        (PayloadV::Decimal(s), PayloadV::Decimal(t)) => {
            <String as Canonical>::prefix_free(s, t, x, y);
        },
        (PayloadV::Text(s), PayloadV::Text(t)) => {
            <String as Canonical>::prefix_free(s, t, x, y);
        },
        (PayloadV::List(s), PayloadV::List(t)) => {
            lemma_cat(number_bytes(s.len()), payload_list_bytes(s), x);
            lemma_cat(number_bytes(t.len()), payload_list_bytes(t), y);
            lemma_number_prefix_free(
                s.len(),
                t.len(),
                payload_list_bytes(s) + x,
                payload_list_bytes(t) + y,
            );
            lemma_payload_list_prefix_free(s, t, x, y);
        },
        (PayloadV::Object(s), PayloadV::Object(t)) => {
            lemma_cat(number_bytes(s.len()), field_list_bytes(s), x);
            lemma_cat(number_bytes(t.len()), field_list_bytes(t), y);
            lemma_number_prefix_free(
                s.len(),
                t.len(),
                field_list_bytes(s) + x,
                field_list_bytes(t) + y,
            );
            lemma_field_list_prefix_free(s, t, x, y);
        },
        _ => {},
    }
}

proof fn lemma_payload_list_prefix_free(
    a: Seq<PayloadV>,
    b: Seq<PayloadV>,
    x: Seq<u8>,
    y: Seq<u8>,
)
    requires
        a.len() == b.len(),
        payload_list_bytes(a) + x == payload_list_bytes(b) + y,
    ensures
        a == b,
        x == y,
    decreases a,
{
    if a.len() == 0 {
        assert(a =~= b);
        assert(payload_list_bytes(a) + x =~= x);
        assert(payload_list_bytes(b) + y =~= y);
    } else {
        let ra = payload_list_bytes(a.skip(1));
        let rb = payload_list_bytes(b.skip(1));
        lemma_cat(payload_bytes(a[0]), ra, x);
        lemma_cat(payload_bytes(b[0]), rb, y);
        lemma_payload_prefix_free(a[0], b[0], ra + x, rb + y);
        lemma_payload_list_prefix_free(a.skip(1), b.skip(1), x, y);
        assert(a =~= seq![a[0]] + a.skip(1));
        assert(b =~= seq![b[0]] + b.skip(1));
    }
}

proof fn lemma_field_list_prefix_free(a: Seq<FieldV>, b: Seq<FieldV>, x: Seq<u8>, y: Seq<u8>)
    requires
        a.len() == b.len(),
        field_list_bytes(a) + x == field_list_bytes(b) + y,
    ensures
        a == b,
        x == y,
    decreases a,
{
    if a.len() == 0 {
        assert(a =~= b);
        assert(field_list_bytes(a) + x =~= x);
        assert(field_list_bytes(b) + y =~= y);
    } else {
        let ra = field_list_bytes(a.skip(1));
        let rb = field_list_bytes(b.skip(1));
        let va = payload_bytes(a[0].value);
        let vb = payload_bytes(b[0].value);
        lemma_cat(text_bytes(a[0].name), va + ra, x);
        lemma_cat(va, ra, x);
        lemma_cat(text_bytes(b[0].name), vb + rb, y);
        lemma_cat(vb, rb, y);
        <String as Canonical>::prefix_free(a[0].name, b[0].name, va + (ra + x), vb + (rb + y));
        assert(decreases_to!(a => a[0]));
        assert(decreases_to!(a[0] => a[0].value));
        lemma_payload_prefix_free(a[0].value, b[0].value, ra + x, rb + y);
        lemma_field_list_prefix_free(a.skip(1), b.skip(1), x, y);
        assert(a =~= seq![a[0]] + a.skip(1));
        assert(b =~= seq![b[0]] + b.skip(1));
    }
}

proof fn lemma_payload_list_push(items: Seq<PayloadV>, last: PayloadV)
    ensures
        payload_list_bytes(items.push(last)) == payload_list_bytes(items) + payload_bytes(last),
    decreases items.len(),
{
    let all = items.push(last);
    if items.len() == 0 {
        assert(all.skip(1) =~= Seq::empty());
        assert(payload_list_bytes(all.skip(1)) =~= Seq::empty());
        assert(payload_list_bytes(all) =~= payload_bytes(last));
        assert(payload_list_bytes(items) + payload_bytes(last) =~= payload_bytes(last));
    } else {
        assert(all.skip(1) =~= items.skip(1).push(last));
        lemma_payload_list_push(items.skip(1), last);
        assert(payload_list_bytes(all) =~= payload_list_bytes(items) + payload_bytes(last));
    }
}

proof fn lemma_field_list_push(fields: Seq<FieldV>, last: FieldV)
    ensures
        field_list_bytes(fields.push(last)) == field_list_bytes(fields) + (text_bytes(last.name)
            + payload_bytes(last.value)),
    decreases fields.len(),
{
    let all = fields.push(last);
    let end = text_bytes(last.name) + payload_bytes(last.value);
    if fields.len() == 0 {
        assert(all.skip(1) =~= Seq::empty());
        assert(field_list_bytes(all.skip(1)) =~= Seq::empty());
        assert(field_list_bytes(all) =~= end);
        assert(field_list_bytes(fields) + end =~= end);
    } else {
        assert(all.skip(1) =~= fields.skip(1).push(last));
        lemma_field_list_push(fields.skip(1), last);
        assert(field_list_bytes(all) =~= field_list_bytes(fields) + end);
    }
}

/// Appends a payload's bytes.
pub fn put_payload(out: &mut Vec<u8>, p: &Payload)
    ensures
        final(out)@ == old(out)@ + payload_bytes(p.deep_view()),
    decreases p,
{
    let ghost start = out@;
    match p {
        Payload::Null => {
            out.push(0);
            assert(out@ =~= start + seq![0u8]);
        },
        Payload::Bool(b) => {
            out.push(1);
            out.push(if *b { 1 } else { 0 });
            assert(out@ =~= start + payload_bytes(p.deep_view()));
        },
        Payload::Count(n) => {
            out.push(2);
            put_number(out, *n);
            assert(out@ =~= start + payload_bytes(p.deep_view()));
        },
        Payload::Decimal(t) => {
            out.push(3);
            put_text(out, t.as_str());
            assert(out@ =~= start + payload_bytes(p.deep_view()));
        },
        Payload::Text(t) => {
            out.push(4);
            put_text(out, t.as_str());
            assert(out@ =~= start + payload_bytes(p.deep_view()));
        },
        Payload::List(items) => {
            let ghost all = p.deep_view()->List_0;
            out.push(5);
            put_number(out, items.len() as u64);
            let ghost base = out@;
            assert(all.take(0) =~= Seq::empty());
            assert(base =~= base + payload_list_bytes(all.take(0)));
            let mut i: usize = 0;
            while i < items.len()
                invariant
                    i <= items.len(),
                    *p == Payload::List(*items),
                    all == p.deep_view()->List_0,
                    out@ == base + payload_list_bytes(all.take(i as int)),
                decreases items.len() - i,
            {
                assert(decreases_to!(*p => p->List_0));
                assert(decreases_to!(p->List_0 => p->List_0@));
                assert(decreases_to!(p->List_0@ => p->List_0@[i as int]));
                put_payload(out, &items[i]);
                proof {
                    lemma_payload_list_push(all.take(i as int), all[i as int]);
                    assert(all.take(i as int).push(all[i as int]) =~= all.take(i + 1));
                    lemma_cat(base, payload_list_bytes(all.take(i as int)), payload_bytes(all[i as int]));
                }
                i = i + 1;
            }
            assert(all.take(i as int) =~= all);
            proof {
                let count = number_bytes(all.len());
                assert(base == start.push(5u8) + count);
                assert(start.push(5u8) =~= start + seq![5u8]);
                lemma_cat(start + seq![5u8], count, payload_list_bytes(all));
                lemma_cat(start, seq![5u8], payload_body(p.deep_view()));
            }
        },
        Payload::Object(fields) => {
            let ghost all = p.deep_view()->Object_0;
            out.push(6);
            put_number(out, fields.len() as u64);
            let ghost base = out@;
            assert(all.take(0) =~= Seq::empty());
            assert(base =~= base + field_list_bytes(all.take(0)));
            let mut i: usize = 0;
            while i < fields.len()
                invariant
                    i <= fields.len(),
                    *p == Payload::Object(*fields),
                    all == p.deep_view()->Object_0,
                    out@ == base + field_list_bytes(all.take(i as int)),
                decreases fields.len() - i,
            {
                assert(decreases_to!(*p => p->Object_0));
                assert(decreases_to!(p->Object_0 => p->Object_0@));
                assert(decreases_to!(p->Object_0@ => p->Object_0@[i as int]));
                assert(decreases_to!(p->Object_0@[i as int] => p->Object_0@[i as int].value));
                let ghost done = out@;
                put_text(out, fields[i].name.as_str());
                put_payload(out, &fields[i].value);
                proof {
                    assert(all[i as int] == crate::payload::field_model(fields@[i as int]));
                    let name = text_bytes(all[i as int].name);
                    let value = payload_bytes(all[i as int].value);
                    lemma_field_list_push(all.take(i as int), all[i as int]);
                    assert(all.take(i as int).push(all[i as int]) =~= all.take(i + 1));
                    lemma_cat(done, name, value);
                    lemma_cat(base, field_list_bytes(all.take(i as int)), name + value);
                }
                i = i + 1;
            }
            assert(all.take(i as int) =~= all);
            proof {
                let count = number_bytes(all.len());
                assert(base == start.push(6u8) + count);
                assert(start.push(6u8) =~= start + seq![6u8]);
                lemma_cat(start + seq![6u8], count, field_list_bytes(all));
                lemma_cat(start, seq![6u8], payload_body(p.deep_view()));
            }
        },
    }
}

impl Canonical for Payload {
    open spec fn bytes_of(v: PayloadV) -> Seq<u8> {
        payload_bytes(v)
    }

    proof fn prefix_free(a: PayloadV, b: PayloadV, x: Seq<u8>, y: Seq<u8>) {
        lemma_payload_prefix_free(a, b, x, y);
    }

    fn put(&self, out: &mut Vec<u8>) {
        put_payload(out, self);
    }
}


impl Canonical for MemberIdentity {
    open spec fn bytes_of(v: IdentityV) -> Seq<u8> {
        String::bytes_of(v.member) + (String::bytes_of(v.identity_pk) + (String::bytes_of(v.nostr_pk)))
    }

    proof fn prefix_free(a: IdentityV, b: IdentityV, x: Seq<u8>, y: Seq<u8>) {
        let ra0 = String::bytes_of(a.identity_pk) + (String::bytes_of(a.nostr_pk));
        let rb0 = String::bytes_of(b.identity_pk) + (String::bytes_of(b.nostr_pk));
        lemma_cat(String::bytes_of(a.member), ra0, x);
        lemma_cat(String::bytes_of(b.member), rb0, y);
        String::prefix_free(a.member, b.member, ra0 + x, rb0 + y);
        let ra1 = String::bytes_of(a.nostr_pk);
        let rb1 = String::bytes_of(b.nostr_pk);
        lemma_cat(String::bytes_of(a.identity_pk), ra1, x);
        lemma_cat(String::bytes_of(b.identity_pk), rb1, y);
        String::prefix_free(a.identity_pk, b.identity_pk, ra1 + x, rb1 + y);
        String::prefix_free(a.nostr_pk, b.nostr_pk, x, y);
    }

    fn put(&self, out: &mut Vec<u8>) {
        let ghost o0 = out@;
        self.member.put(out);
        let ghost o1 = out@;
        self.identity_pk.put(out);
        self.nostr_pk.put(out);
        proof {
            let t2 = String::bytes_of(self.nostr_pk.deep_view());
            lemma_cat(o1, String::bytes_of(self.identity_pk.deep_view()), t2);
            let t1 = String::bytes_of(self.identity_pk.deep_view()) + t2;
            lemma_cat(o0, String::bytes_of(self.member.deep_view()), t1);
        }
    }
}

impl Canonical for RosterAttestation {
    open spec fn bytes_of(v: AttestationV) -> Seq<u8> {
        String::bytes_of(v.member) + (String::bytes_of(v.sig))
    }

    proof fn prefix_free(a: AttestationV, b: AttestationV, x: Seq<u8>, y: Seq<u8>) {
        let ra0 = String::bytes_of(a.sig);
        let rb0 = String::bytes_of(b.sig);
        lemma_cat(String::bytes_of(a.member), ra0, x);
        lemma_cat(String::bytes_of(b.member), rb0, y);
        String::prefix_free(a.member, b.member, ra0 + x, rb0 + y);
        String::prefix_free(a.sig, b.sig, x, y);
    }

    fn put(&self, out: &mut Vec<u8>) {
        let ghost o0 = out@;
        self.member.put(out);
        self.sig.put(out);
        proof {
            let t1 = String::bytes_of(self.sig.deep_view());
            lemma_cat(o0, String::bytes_of(self.member.deep_view()), t1);
        }
    }
}

impl Canonical for AppliedEntry {
    open spec fn bytes_of(v: EntryV) -> Seq<u8> {
        u64::bytes_of(v.id) + (Payload::bytes_of(v.payload))
    }

    proof fn prefix_free(a: EntryV, b: EntryV, x: Seq<u8>, y: Seq<u8>) {
        let ra0 = Payload::bytes_of(a.payload);
        let rb0 = Payload::bytes_of(b.payload);
        lemma_cat(u64::bytes_of(a.id), ra0, x);
        lemma_cat(u64::bytes_of(b.id), rb0, y);
        u64::prefix_free(a.id, b.id, ra0 + x, rb0 + y);
        Payload::prefix_free(a.payload, b.payload, x, y);
    }

    fn put(&self, out: &mut Vec<u8>) {
        let ghost o0 = out@;
        self.id.put(out);
        self.payload.put(out);
        proof {
            let t1 = Payload::bytes_of(self.payload.deep_view());
            lemma_cat(o0, u64::bytes_of(self.id.deep_view()), t1);
        }
    }
}

impl Canonical for AppliedGroup {
    open spec fn bytes_of(v: GroupV) -> Seq<u8> {
        Surface::bytes_of(v.surface) + (<Vec<AppliedEntry>>::bytes_of(v.entries))
    }

    proof fn prefix_free(a: GroupV, b: GroupV, x: Seq<u8>, y: Seq<u8>) {
        let ra0 = <Vec<AppliedEntry>>::bytes_of(a.entries);
        let rb0 = <Vec<AppliedEntry>>::bytes_of(b.entries);
        lemma_cat(Surface::bytes_of(a.surface), ra0, x);
        lemma_cat(Surface::bytes_of(b.surface), rb0, y);
        Surface::prefix_free(a.surface, b.surface, ra0 + x, rb0 + y);
        <Vec<AppliedEntry>>::prefix_free(a.entries, b.entries, x, y);
    }

    fn put(&self, out: &mut Vec<u8>) {
        let ghost o0 = out@;
        self.surface.put(out);
        self.entries.put(out);
        proof {
            let t1 = <Vec<AppliedEntry>>::bytes_of(self.entries.deep_view());
            lemma_cat(o0, Surface::bytes_of(self.surface.deep_view()), t1);
        }
    }
}

impl Canonical for Anchor {
    open spec fn bytes_of(v: AnchorV) -> Seq<u8> {
        String::bytes_of(v.member) + (String::bytes_of(v.nostr_pk))
    }

    proof fn prefix_free(a: AnchorV, b: AnchorV, x: Seq<u8>, y: Seq<u8>) {
        let ra0 = String::bytes_of(a.nostr_pk);
        let rb0 = String::bytes_of(b.nostr_pk);
        lemma_cat(String::bytes_of(a.member), ra0, x);
        lemma_cat(String::bytes_of(b.member), rb0, y);
        String::prefix_free(a.member, b.member, ra0 + x, rb0 + y);
        String::prefix_free(a.nostr_pk, b.nostr_pk, x, y);
    }

    fn put(&self, out: &mut Vec<u8>) {
        let ghost o0 = out@;
        self.member.put(out);
        self.nostr_pk.put(out);
        proof {
            let t1 = String::bytes_of(self.nostr_pk.deep_view());
            lemma_cat(o0, String::bytes_of(self.member.deep_view()), t1);
        }
    }
}

impl Canonical for RelayDeclaration {
    open spec fn bytes_of(v: DeclarationV) -> Seq<u8> {
        String::bytes_of(v.member) + (<Vec<String>>::bytes_of(v.relays))
    }

    proof fn prefix_free(a: DeclarationV, b: DeclarationV, x: Seq<u8>, y: Seq<u8>) {
        let ra0 = <Vec<String>>::bytes_of(a.relays);
        let rb0 = <Vec<String>>::bytes_of(b.relays);
        lemma_cat(String::bytes_of(a.member), ra0, x);
        lemma_cat(String::bytes_of(b.member), rb0, y);
        String::prefix_free(a.member, b.member, ra0 + x, rb0 + y);
        <Vec<String>>::prefix_free(a.relays, b.relays, x, y);
    }

    fn put(&self, out: &mut Vec<u8>) {
        let ghost o0 = out@;
        self.member.put(out);
        self.relays.put(out);
        proof {
            let t1 = <Vec<String>>::bytes_of(self.relays.deep_view());
            lemma_cat(o0, String::bytes_of(self.member.deep_view()), t1);
        }
    }
}

impl Canonical for ChainChange {
    open spec fn bytes_of(v: ChangeV) -> Seq<u8> {
        seq![change_byte(v)] + change_body(v)
    }

    proof fn prefix_free(a: ChangeV, b: ChangeV, x: Seq<u8>, y: Seq<u8>) {
        lemma_cat(seq![change_byte(a)], change_body(a), x);
        lemma_cat(seq![change_byte(b)], change_body(b), y);
        <u8 as Canonical>::prefix_free(
            change_byte(a),
            change_byte(b),
            change_body(a) + x,
            change_body(b) + y,
        );
        match (a, b) {
            (ChangeV::Genesis { name: a_name, republic_id: a_republic_id, rule_m: a_rule_m, rule_n: a_rule_n, identities: a_identities, agenda: a_agenda, features: a_features, relays: a_relays }, ChangeV::Genesis { name: b_name, republic_id: b_republic_id, rule_m: b_rule_m, rule_n: b_rule_n, identities: b_identities, agenda: b_agenda, features: b_features, relays: b_relays }) => {
                let ra0 = String::bytes_of(a_republic_id) + (u8::bytes_of(a_rule_m) + (u8::bytes_of(a_rule_n) + (<Vec<MemberIdentity>>::bytes_of(a_identities) + (String::bytes_of(a_agenda) + (<Option<Vec<String>>>::bytes_of(a_features) + (<Vec<String>>::bytes_of(a_relays)))))));
                let rb0 = String::bytes_of(b_republic_id) + (u8::bytes_of(b_rule_m) + (u8::bytes_of(b_rule_n) + (<Vec<MemberIdentity>>::bytes_of(b_identities) + (String::bytes_of(b_agenda) + (<Option<Vec<String>>>::bytes_of(b_features) + (<Vec<String>>::bytes_of(b_relays)))))));
                lemma_cat(String::bytes_of(a_name), ra0, x);
                lemma_cat(String::bytes_of(b_name), rb0, y);
                String::prefix_free(a_name, b_name, ra0 + x, rb0 + y);
                let ra1 = u8::bytes_of(a_rule_m) + (u8::bytes_of(a_rule_n) + (<Vec<MemberIdentity>>::bytes_of(a_identities) + (String::bytes_of(a_agenda) + (<Option<Vec<String>>>::bytes_of(a_features) + (<Vec<String>>::bytes_of(a_relays))))));
                let rb1 = u8::bytes_of(b_rule_m) + (u8::bytes_of(b_rule_n) + (<Vec<MemberIdentity>>::bytes_of(b_identities) + (String::bytes_of(b_agenda) + (<Option<Vec<String>>>::bytes_of(b_features) + (<Vec<String>>::bytes_of(b_relays))))));
                lemma_cat(String::bytes_of(a_republic_id), ra1, x);
                lemma_cat(String::bytes_of(b_republic_id), rb1, y);
                String::prefix_free(a_republic_id, b_republic_id, ra1 + x, rb1 + y);
                let ra2 = u8::bytes_of(a_rule_n) + (<Vec<MemberIdentity>>::bytes_of(a_identities) + (String::bytes_of(a_agenda) + (<Option<Vec<String>>>::bytes_of(a_features) + (<Vec<String>>::bytes_of(a_relays)))));
                let rb2 = u8::bytes_of(b_rule_n) + (<Vec<MemberIdentity>>::bytes_of(b_identities) + (String::bytes_of(b_agenda) + (<Option<Vec<String>>>::bytes_of(b_features) + (<Vec<String>>::bytes_of(b_relays)))));
                lemma_cat(u8::bytes_of(a_rule_m), ra2, x);
                lemma_cat(u8::bytes_of(b_rule_m), rb2, y);
                u8::prefix_free(a_rule_m, b_rule_m, ra2 + x, rb2 + y);
                let ra3 = <Vec<MemberIdentity>>::bytes_of(a_identities) + (String::bytes_of(a_agenda) + (<Option<Vec<String>>>::bytes_of(a_features) + (<Vec<String>>::bytes_of(a_relays))));
                let rb3 = <Vec<MemberIdentity>>::bytes_of(b_identities) + (String::bytes_of(b_agenda) + (<Option<Vec<String>>>::bytes_of(b_features) + (<Vec<String>>::bytes_of(b_relays))));
                lemma_cat(u8::bytes_of(a_rule_n), ra3, x);
                lemma_cat(u8::bytes_of(b_rule_n), rb3, y);
                u8::prefix_free(a_rule_n, b_rule_n, ra3 + x, rb3 + y);
                let ra4 = String::bytes_of(a_agenda) + (<Option<Vec<String>>>::bytes_of(a_features) + (<Vec<String>>::bytes_of(a_relays)));
                let rb4 = String::bytes_of(b_agenda) + (<Option<Vec<String>>>::bytes_of(b_features) + (<Vec<String>>::bytes_of(b_relays)));
                lemma_cat(<Vec<MemberIdentity>>::bytes_of(a_identities), ra4, x);
                lemma_cat(<Vec<MemberIdentity>>::bytes_of(b_identities), rb4, y);
                <Vec<MemberIdentity>>::prefix_free(a_identities, b_identities, ra4 + x, rb4 + y);
                let ra5 = <Option<Vec<String>>>::bytes_of(a_features) + (<Vec<String>>::bytes_of(a_relays));
                let rb5 = <Option<Vec<String>>>::bytes_of(b_features) + (<Vec<String>>::bytes_of(b_relays));
                lemma_cat(String::bytes_of(a_agenda), ra5, x);
                lemma_cat(String::bytes_of(b_agenda), rb5, y);
                String::prefix_free(a_agenda, b_agenda, ra5 + x, rb5 + y);
                let ra6 = <Vec<String>>::bytes_of(a_relays);
                let rb6 = <Vec<String>>::bytes_of(b_relays);
                lemma_cat(<Option<Vec<String>>>::bytes_of(a_features), ra6, x);
                lemma_cat(<Option<Vec<String>>>::bytes_of(b_features), rb6, y);
                <Option<Vec<String>>>::prefix_free(a_features, b_features, ra6 + x, rb6 + y);
                <Vec<String>>::prefix_free(a_relays, b_relays, x, y);
            },
            (ChangeV::Applied { proposal_id: a_proposal_id, surface: a_surface, payload: a_payload }, ChangeV::Applied { proposal_id: b_proposal_id, surface: b_surface, payload: b_payload }) => {
                let ra0 = Surface::bytes_of(a_surface) + (Payload::bytes_of(a_payload));
                let rb0 = Surface::bytes_of(b_surface) + (Payload::bytes_of(b_payload));
                lemma_cat(u64::bytes_of(a_proposal_id), ra0, x);
                lemma_cat(u64::bytes_of(b_proposal_id), rb0, y);
                u64::prefix_free(a_proposal_id, b_proposal_id, ra0 + x, rb0 + y);
                let ra1 = Payload::bytes_of(a_payload);
                let rb1 = Payload::bytes_of(b_payload);
                lemma_cat(Surface::bytes_of(a_surface), ra1, x);
                lemma_cat(Surface::bytes_of(b_surface), rb1, y);
                Surface::prefix_free(a_surface, b_surface, ra1 + x, rb1 + y);
                Payload::prefix_free(a_payload, b_payload, x, y);
            },
            (ChangeV::Membership { op: a_op, member: a_member, identity_pk: a_identity_pk, nostr_pk: a_nostr_pk, relays: a_relays, consent: a_consent }, ChangeV::Membership { op: b_op, member: b_member, identity_pk: b_identity_pk, nostr_pk: b_nostr_pk, relays: b_relays, consent: b_consent }) => {
                let ra0 = String::bytes_of(a_member) + (String::bytes_of(a_identity_pk) + (<Option<String>>::bytes_of(a_nostr_pk) + (<Vec<String>>::bytes_of(a_relays) + (<Option<String>>::bytes_of(a_consent)))));
                let rb0 = String::bytes_of(b_member) + (String::bytes_of(b_identity_pk) + (<Option<String>>::bytes_of(b_nostr_pk) + (<Vec<String>>::bytes_of(b_relays) + (<Option<String>>::bytes_of(b_consent)))));
                lemma_cat(MembershipOp::bytes_of(a_op), ra0, x);
                lemma_cat(MembershipOp::bytes_of(b_op), rb0, y);
                MembershipOp::prefix_free(a_op, b_op, ra0 + x, rb0 + y);
                let ra1 = String::bytes_of(a_identity_pk) + (<Option<String>>::bytes_of(a_nostr_pk) + (<Vec<String>>::bytes_of(a_relays) + (<Option<String>>::bytes_of(a_consent))));
                let rb1 = String::bytes_of(b_identity_pk) + (<Option<String>>::bytes_of(b_nostr_pk) + (<Vec<String>>::bytes_of(b_relays) + (<Option<String>>::bytes_of(b_consent))));
                lemma_cat(String::bytes_of(a_member), ra1, x);
                lemma_cat(String::bytes_of(b_member), rb1, y);
                String::prefix_free(a_member, b_member, ra1 + x, rb1 + y);
                let ra2 = <Option<String>>::bytes_of(a_nostr_pk) + (<Vec<String>>::bytes_of(a_relays) + (<Option<String>>::bytes_of(a_consent)));
                let rb2 = <Option<String>>::bytes_of(b_nostr_pk) + (<Vec<String>>::bytes_of(b_relays) + (<Option<String>>::bytes_of(b_consent)));
                lemma_cat(String::bytes_of(a_identity_pk), ra2, x);
                lemma_cat(String::bytes_of(b_identity_pk), rb2, y);
                String::prefix_free(a_identity_pk, b_identity_pk, ra2 + x, rb2 + y);
                let ra3 = <Vec<String>>::bytes_of(a_relays) + (<Option<String>>::bytes_of(a_consent));
                let rb3 = <Vec<String>>::bytes_of(b_relays) + (<Option<String>>::bytes_of(b_consent));
                lemma_cat(<Option<String>>::bytes_of(a_nostr_pk), ra3, x);
                lemma_cat(<Option<String>>::bytes_of(b_nostr_pk), rb3, y);
                <Option<String>>::prefix_free(a_nostr_pk, b_nostr_pk, ra3 + x, rb3 + y);
                let ra4 = <Option<String>>::bytes_of(a_consent);
                let rb4 = <Option<String>>::bytes_of(b_consent);
                lemma_cat(<Vec<String>>::bytes_of(a_relays), ra4, x);
                lemma_cat(<Vec<String>>::bytes_of(b_relays), rb4, y);
                <Vec<String>>::prefix_free(a_relays, b_relays, ra4 + x, rb4 + y);
                <Option<String>>::prefix_free(a_consent, b_consent, x, y);
            },
            (ChangeV::Checkpoint { upto: a_upto, state_hash: a_state_hash }, ChangeV::Checkpoint { upto: b_upto, state_hash: b_state_hash }) => {
                let ra0 = String::bytes_of(a_state_hash);
                let rb0 = String::bytes_of(b_state_hash);
                lemma_cat(u64::bytes_of(a_upto), ra0, x);
                lemma_cat(u64::bytes_of(b_upto), rb0, y);
                u64::prefix_free(a_upto, b_upto, ra0 + x, rb0 + y);
                String::prefix_free(a_state_hash, b_state_hash, x, y);
            },
            _ => {},
        }
    }

    fn put(&self, out: &mut Vec<u8>) {
        let ghost start = out@;
        match self {
            ChainChange::Genesis { name, republic_id, rule_m, rule_n, identities, agenda, features, relays } => {
                out.push(0);
                let ghost o0 = out@;
                name.put(out);
                let ghost o1 = out@;
                republic_id.put(out);
                let ghost o2 = out@;
                rule_m.put(out);
                let ghost o3 = out@;
                rule_n.put(out);
                let ghost o4 = out@;
                identities.put(out);
                let ghost o5 = out@;
                agenda.put(out);
                let ghost o6 = out@;
                features.put(out);
                relays.put(out);
                proof {
                    let t7 = <Vec<String>>::bytes_of(relays.deep_view());
                    lemma_cat(o6, <Option<Vec<String>>>::bytes_of(features.deep_view()), t7);
                    let t6 = <Option<Vec<String>>>::bytes_of(features.deep_view()) + t7;
                    lemma_cat(o5, String::bytes_of(agenda.deep_view()), t6);
                    let t5 = String::bytes_of(agenda.deep_view()) + t6;
                    lemma_cat(o4, <Vec<MemberIdentity>>::bytes_of(identities.deep_view()), t5);
                    let t4 = <Vec<MemberIdentity>>::bytes_of(identities.deep_view()) + t5;
                    lemma_cat(o3, u8::bytes_of(rule_n.deep_view()), t4);
                    let t3 = u8::bytes_of(rule_n.deep_view()) + t4;
                    lemma_cat(o2, u8::bytes_of(rule_m.deep_view()), t3);
                    let t2 = u8::bytes_of(rule_m.deep_view()) + t3;
                    lemma_cat(o1, String::bytes_of(republic_id.deep_view()), t2);
                    let t1 = String::bytes_of(republic_id.deep_view()) + t2;
                    lemma_cat(o0, String::bytes_of(name.deep_view()), t1);
                }
            },
            ChainChange::Applied { proposal_id, surface, payload } => {
                out.push(1);
                let ghost o0 = out@;
                proposal_id.put(out);
                let ghost o1 = out@;
                surface.put(out);
                payload.put(out);
                proof {
                    let t2 = Payload::bytes_of(payload.deep_view());
                    lemma_cat(o1, Surface::bytes_of(surface.deep_view()), t2);
                    let t1 = Surface::bytes_of(surface.deep_view()) + t2;
                    lemma_cat(o0, u64::bytes_of(proposal_id.deep_view()), t1);
                }
            },
            ChainChange::Membership { op, member, identity_pk, nostr_pk, relays, consent } => {
                out.push(2);
                let ghost o0 = out@;
                op.put(out);
                let ghost o1 = out@;
                member.put(out);
                let ghost o2 = out@;
                identity_pk.put(out);
                let ghost o3 = out@;
                nostr_pk.put(out);
                let ghost o4 = out@;
                relays.put(out);
                consent.put(out);
                proof {
                    let t5 = <Option<String>>::bytes_of(consent.deep_view());
                    lemma_cat(o4, <Vec<String>>::bytes_of(relays.deep_view()), t5);
                    let t4 = <Vec<String>>::bytes_of(relays.deep_view()) + t5;
                    lemma_cat(o3, <Option<String>>::bytes_of(nostr_pk.deep_view()), t4);
                    let t3 = <Option<String>>::bytes_of(nostr_pk.deep_view()) + t4;
                    lemma_cat(o2, String::bytes_of(identity_pk.deep_view()), t3);
                    let t2 = String::bytes_of(identity_pk.deep_view()) + t3;
                    lemma_cat(o1, String::bytes_of(member.deep_view()), t2);
                    let t1 = String::bytes_of(member.deep_view()) + t2;
                    lemma_cat(o0, MembershipOp::bytes_of(op.deep_view()), t1);
                }
            },
            ChainChange::Checkpoint { upto, state_hash } => {
                out.push(3);
                let ghost o0 = out@;
                upto.put(out);
                state_hash.put(out);
                proof {
                    let t1 = String::bytes_of(state_hash.deep_view());
                    lemma_cat(o0, u64::bytes_of(upto.deep_view()), t1);
                }
            },
        }
        proof {
            let kind = change_byte(self.deep_view());
            assert(start.push(kind) =~= start + seq![kind]);
            lemma_cat(start, seq![kind], change_body(self.deep_view()));
        }
    }
}

/// The bytes of a change's content.
pub open spec fn change_body(v: ChangeV) -> Seq<u8> {
    match v {
        ChangeV::Genesis { name, republic_id, rule_m, rule_n, identities, agenda, features, relays } => String::bytes_of(name) + (String::bytes_of(republic_id) + (u8::bytes_of(rule_m) + (u8::bytes_of(rule_n) + (<Vec<MemberIdentity>>::bytes_of(identities) + (String::bytes_of(agenda) + (<Option<Vec<String>>>::bytes_of(features) + (<Vec<String>>::bytes_of(relays)))))))),
        ChangeV::Applied { proposal_id, surface, payload } => u64::bytes_of(proposal_id) + (Surface::bytes_of(surface) + (Payload::bytes_of(payload))),
        ChangeV::Membership { op, member, identity_pk, nostr_pk, relays, consent } => MembershipOp::bytes_of(op) + (String::bytes_of(member) + (String::bytes_of(identity_pk) + (<Option<String>>::bytes_of(nostr_pk) + (<Vec<String>>::bytes_of(relays) + (<Option<String>>::bytes_of(consent)))))),
        ChangeV::Checkpoint { upto, state_hash } => u64::bytes_of(upto) + (String::bytes_of(state_hash)),
    }
}

/// The byte of a change's kind.
pub open spec fn change_byte(v: ChangeV) -> u8 {
    match v {
        ChangeV::Genesis { .. } => 0,
        ChangeV::Applied { .. } => 1,
        ChangeV::Membership { .. } => 2,
        ChangeV::Checkpoint { .. } => 3,
    }
}

impl Canonical for ChainBlock {
    open spec fn bytes_of(v: BlockV) -> Seq<u8> {
        u64::bytes_of(v.height) + (String::bytes_of(v.prev) + (ChainChange::bytes_of(v.change) + (<Vec<RosterAttestation>>::bytes_of(v.sigs))))
    }

    proof fn prefix_free(a: BlockV, b: BlockV, x: Seq<u8>, y: Seq<u8>) {
        let ra0 = String::bytes_of(a.prev) + (ChainChange::bytes_of(a.change) + (<Vec<RosterAttestation>>::bytes_of(a.sigs)));
        let rb0 = String::bytes_of(b.prev) + (ChainChange::bytes_of(b.change) + (<Vec<RosterAttestation>>::bytes_of(b.sigs)));
        lemma_cat(u64::bytes_of(a.height), ra0, x);
        lemma_cat(u64::bytes_of(b.height), rb0, y);
        u64::prefix_free(a.height, b.height, ra0 + x, rb0 + y);
        let ra1 = ChainChange::bytes_of(a.change) + (<Vec<RosterAttestation>>::bytes_of(a.sigs));
        let rb1 = ChainChange::bytes_of(b.change) + (<Vec<RosterAttestation>>::bytes_of(b.sigs));
        lemma_cat(String::bytes_of(a.prev), ra1, x);
        lemma_cat(String::bytes_of(b.prev), rb1, y);
        String::prefix_free(a.prev, b.prev, ra1 + x, rb1 + y);
        let ra2 = <Vec<RosterAttestation>>::bytes_of(a.sigs);
        let rb2 = <Vec<RosterAttestation>>::bytes_of(b.sigs);
        lemma_cat(ChainChange::bytes_of(a.change), ra2, x);
        lemma_cat(ChainChange::bytes_of(b.change), rb2, y);
        ChainChange::prefix_free(a.change, b.change, ra2 + x, rb2 + y);
        <Vec<RosterAttestation>>::prefix_free(a.sigs, b.sigs, x, y);
    }

    fn put(&self, out: &mut Vec<u8>) {
        let ghost o0 = out@;
        self.height.put(out);
        let ghost o1 = out@;
        self.prev.put(out);
        let ghost o2 = out@;
        self.change.put(out);
        self.sigs.put(out);
        proof {
            let t3 = <Vec<RosterAttestation>>::bytes_of(self.sigs.deep_view());
            lemma_cat(o2, ChainChange::bytes_of(self.change.deep_view()), t3);
            let t2 = ChainChange::bytes_of(self.change.deep_view()) + t3;
            lemma_cat(o1, String::bytes_of(self.prev.deep_view()), t2);
            let t1 = String::bytes_of(self.prev.deep_view()) + t2;
            lemma_cat(o0, u64::bytes_of(self.height.deep_view()), t1);
        }
    }
}

impl Canonical for CheckpointState {
    open spec fn bytes_of(v: SummaryV) -> Seq<u8> {
        String::bytes_of(v.founding_name) + (u8::bytes_of(v.rule_m) + (u8::bytes_of(v.rule_n) + (<Vec<MemberIdentity>>::bytes_of(v.founding_identities) + (String::bytes_of(v.agenda) + (String::bytes_of(v.republic_id) + (<Vec<String>>::bytes_of(v.relays) + (<Option<Vec<String>>>::bytes_of(v.founding_features) + (<Vec<MemberIdentity>>::bytes_of(v.roster) + (<Vec<AppliedGroup>>::bytes_of(v.applied) + (<Vec<u64>>::bytes_of(v.consumed_ids) + (<Vec<Anchor>>::bytes_of(v.anchors) + (<Vec<RelayDeclaration>>::bytes_of(v.member_relays) + (u64::bytes_of(v.upto))))))))))))))
    }

    proof fn prefix_free(a: SummaryV, b: SummaryV, x: Seq<u8>, y: Seq<u8>) {
        let ra0 = u8::bytes_of(a.rule_m) + (u8::bytes_of(a.rule_n) + (<Vec<MemberIdentity>>::bytes_of(a.founding_identities) + (String::bytes_of(a.agenda) + (String::bytes_of(a.republic_id) + (<Vec<String>>::bytes_of(a.relays) + (<Option<Vec<String>>>::bytes_of(a.founding_features) + (<Vec<MemberIdentity>>::bytes_of(a.roster) + (<Vec<AppliedGroup>>::bytes_of(a.applied) + (<Vec<u64>>::bytes_of(a.consumed_ids) + (<Vec<Anchor>>::bytes_of(a.anchors) + (<Vec<RelayDeclaration>>::bytes_of(a.member_relays) + (u64::bytes_of(a.upto)))))))))))));
        let rb0 = u8::bytes_of(b.rule_m) + (u8::bytes_of(b.rule_n) + (<Vec<MemberIdentity>>::bytes_of(b.founding_identities) + (String::bytes_of(b.agenda) + (String::bytes_of(b.republic_id) + (<Vec<String>>::bytes_of(b.relays) + (<Option<Vec<String>>>::bytes_of(b.founding_features) + (<Vec<MemberIdentity>>::bytes_of(b.roster) + (<Vec<AppliedGroup>>::bytes_of(b.applied) + (<Vec<u64>>::bytes_of(b.consumed_ids) + (<Vec<Anchor>>::bytes_of(b.anchors) + (<Vec<RelayDeclaration>>::bytes_of(b.member_relays) + (u64::bytes_of(b.upto)))))))))))));
        lemma_cat(String::bytes_of(a.founding_name), ra0, x);
        lemma_cat(String::bytes_of(b.founding_name), rb0, y);
        String::prefix_free(a.founding_name, b.founding_name, ra0 + x, rb0 + y);
        let ra1 = u8::bytes_of(a.rule_n) + (<Vec<MemberIdentity>>::bytes_of(a.founding_identities) + (String::bytes_of(a.agenda) + (String::bytes_of(a.republic_id) + (<Vec<String>>::bytes_of(a.relays) + (<Option<Vec<String>>>::bytes_of(a.founding_features) + (<Vec<MemberIdentity>>::bytes_of(a.roster) + (<Vec<AppliedGroup>>::bytes_of(a.applied) + (<Vec<u64>>::bytes_of(a.consumed_ids) + (<Vec<Anchor>>::bytes_of(a.anchors) + (<Vec<RelayDeclaration>>::bytes_of(a.member_relays) + (u64::bytes_of(a.upto))))))))))));
        let rb1 = u8::bytes_of(b.rule_n) + (<Vec<MemberIdentity>>::bytes_of(b.founding_identities) + (String::bytes_of(b.agenda) + (String::bytes_of(b.republic_id) + (<Vec<String>>::bytes_of(b.relays) + (<Option<Vec<String>>>::bytes_of(b.founding_features) + (<Vec<MemberIdentity>>::bytes_of(b.roster) + (<Vec<AppliedGroup>>::bytes_of(b.applied) + (<Vec<u64>>::bytes_of(b.consumed_ids) + (<Vec<Anchor>>::bytes_of(b.anchors) + (<Vec<RelayDeclaration>>::bytes_of(b.member_relays) + (u64::bytes_of(b.upto))))))))))));
        lemma_cat(u8::bytes_of(a.rule_m), ra1, x);
        lemma_cat(u8::bytes_of(b.rule_m), rb1, y);
        u8::prefix_free(a.rule_m, b.rule_m, ra1 + x, rb1 + y);
        let ra2 = <Vec<MemberIdentity>>::bytes_of(a.founding_identities) + (String::bytes_of(a.agenda) + (String::bytes_of(a.republic_id) + (<Vec<String>>::bytes_of(a.relays) + (<Option<Vec<String>>>::bytes_of(a.founding_features) + (<Vec<MemberIdentity>>::bytes_of(a.roster) + (<Vec<AppliedGroup>>::bytes_of(a.applied) + (<Vec<u64>>::bytes_of(a.consumed_ids) + (<Vec<Anchor>>::bytes_of(a.anchors) + (<Vec<RelayDeclaration>>::bytes_of(a.member_relays) + (u64::bytes_of(a.upto)))))))))));
        let rb2 = <Vec<MemberIdentity>>::bytes_of(b.founding_identities) + (String::bytes_of(b.agenda) + (String::bytes_of(b.republic_id) + (<Vec<String>>::bytes_of(b.relays) + (<Option<Vec<String>>>::bytes_of(b.founding_features) + (<Vec<MemberIdentity>>::bytes_of(b.roster) + (<Vec<AppliedGroup>>::bytes_of(b.applied) + (<Vec<u64>>::bytes_of(b.consumed_ids) + (<Vec<Anchor>>::bytes_of(b.anchors) + (<Vec<RelayDeclaration>>::bytes_of(b.member_relays) + (u64::bytes_of(b.upto)))))))))));
        lemma_cat(u8::bytes_of(a.rule_n), ra2, x);
        lemma_cat(u8::bytes_of(b.rule_n), rb2, y);
        u8::prefix_free(a.rule_n, b.rule_n, ra2 + x, rb2 + y);
        let ra3 = String::bytes_of(a.agenda) + (String::bytes_of(a.republic_id) + (<Vec<String>>::bytes_of(a.relays) + (<Option<Vec<String>>>::bytes_of(a.founding_features) + (<Vec<MemberIdentity>>::bytes_of(a.roster) + (<Vec<AppliedGroup>>::bytes_of(a.applied) + (<Vec<u64>>::bytes_of(a.consumed_ids) + (<Vec<Anchor>>::bytes_of(a.anchors) + (<Vec<RelayDeclaration>>::bytes_of(a.member_relays) + (u64::bytes_of(a.upto))))))))));
        let rb3 = String::bytes_of(b.agenda) + (String::bytes_of(b.republic_id) + (<Vec<String>>::bytes_of(b.relays) + (<Option<Vec<String>>>::bytes_of(b.founding_features) + (<Vec<MemberIdentity>>::bytes_of(b.roster) + (<Vec<AppliedGroup>>::bytes_of(b.applied) + (<Vec<u64>>::bytes_of(b.consumed_ids) + (<Vec<Anchor>>::bytes_of(b.anchors) + (<Vec<RelayDeclaration>>::bytes_of(b.member_relays) + (u64::bytes_of(b.upto))))))))));
        lemma_cat(<Vec<MemberIdentity>>::bytes_of(a.founding_identities), ra3, x);
        lemma_cat(<Vec<MemberIdentity>>::bytes_of(b.founding_identities), rb3, y);
        <Vec<MemberIdentity>>::prefix_free(a.founding_identities, b.founding_identities, ra3 + x, rb3 + y);
        let ra4 = String::bytes_of(a.republic_id) + (<Vec<String>>::bytes_of(a.relays) + (<Option<Vec<String>>>::bytes_of(a.founding_features) + (<Vec<MemberIdentity>>::bytes_of(a.roster) + (<Vec<AppliedGroup>>::bytes_of(a.applied) + (<Vec<u64>>::bytes_of(a.consumed_ids) + (<Vec<Anchor>>::bytes_of(a.anchors) + (<Vec<RelayDeclaration>>::bytes_of(a.member_relays) + (u64::bytes_of(a.upto)))))))));
        let rb4 = String::bytes_of(b.republic_id) + (<Vec<String>>::bytes_of(b.relays) + (<Option<Vec<String>>>::bytes_of(b.founding_features) + (<Vec<MemberIdentity>>::bytes_of(b.roster) + (<Vec<AppliedGroup>>::bytes_of(b.applied) + (<Vec<u64>>::bytes_of(b.consumed_ids) + (<Vec<Anchor>>::bytes_of(b.anchors) + (<Vec<RelayDeclaration>>::bytes_of(b.member_relays) + (u64::bytes_of(b.upto)))))))));
        lemma_cat(String::bytes_of(a.agenda), ra4, x);
        lemma_cat(String::bytes_of(b.agenda), rb4, y);
        String::prefix_free(a.agenda, b.agenda, ra4 + x, rb4 + y);
        let ra5 = <Vec<String>>::bytes_of(a.relays) + (<Option<Vec<String>>>::bytes_of(a.founding_features) + (<Vec<MemberIdentity>>::bytes_of(a.roster) + (<Vec<AppliedGroup>>::bytes_of(a.applied) + (<Vec<u64>>::bytes_of(a.consumed_ids) + (<Vec<Anchor>>::bytes_of(a.anchors) + (<Vec<RelayDeclaration>>::bytes_of(a.member_relays) + (u64::bytes_of(a.upto))))))));
        let rb5 = <Vec<String>>::bytes_of(b.relays) + (<Option<Vec<String>>>::bytes_of(b.founding_features) + (<Vec<MemberIdentity>>::bytes_of(b.roster) + (<Vec<AppliedGroup>>::bytes_of(b.applied) + (<Vec<u64>>::bytes_of(b.consumed_ids) + (<Vec<Anchor>>::bytes_of(b.anchors) + (<Vec<RelayDeclaration>>::bytes_of(b.member_relays) + (u64::bytes_of(b.upto))))))));
        lemma_cat(String::bytes_of(a.republic_id), ra5, x);
        lemma_cat(String::bytes_of(b.republic_id), rb5, y);
        String::prefix_free(a.republic_id, b.republic_id, ra5 + x, rb5 + y);
        let ra6 = <Option<Vec<String>>>::bytes_of(a.founding_features) + (<Vec<MemberIdentity>>::bytes_of(a.roster) + (<Vec<AppliedGroup>>::bytes_of(a.applied) + (<Vec<u64>>::bytes_of(a.consumed_ids) + (<Vec<Anchor>>::bytes_of(a.anchors) + (<Vec<RelayDeclaration>>::bytes_of(a.member_relays) + (u64::bytes_of(a.upto)))))));
        let rb6 = <Option<Vec<String>>>::bytes_of(b.founding_features) + (<Vec<MemberIdentity>>::bytes_of(b.roster) + (<Vec<AppliedGroup>>::bytes_of(b.applied) + (<Vec<u64>>::bytes_of(b.consumed_ids) + (<Vec<Anchor>>::bytes_of(b.anchors) + (<Vec<RelayDeclaration>>::bytes_of(b.member_relays) + (u64::bytes_of(b.upto)))))));
        lemma_cat(<Vec<String>>::bytes_of(a.relays), ra6, x);
        lemma_cat(<Vec<String>>::bytes_of(b.relays), rb6, y);
        <Vec<String>>::prefix_free(a.relays, b.relays, ra6 + x, rb6 + y);
        let ra7 = <Vec<MemberIdentity>>::bytes_of(a.roster) + (<Vec<AppliedGroup>>::bytes_of(a.applied) + (<Vec<u64>>::bytes_of(a.consumed_ids) + (<Vec<Anchor>>::bytes_of(a.anchors) + (<Vec<RelayDeclaration>>::bytes_of(a.member_relays) + (u64::bytes_of(a.upto))))));
        let rb7 = <Vec<MemberIdentity>>::bytes_of(b.roster) + (<Vec<AppliedGroup>>::bytes_of(b.applied) + (<Vec<u64>>::bytes_of(b.consumed_ids) + (<Vec<Anchor>>::bytes_of(b.anchors) + (<Vec<RelayDeclaration>>::bytes_of(b.member_relays) + (u64::bytes_of(b.upto))))));
        lemma_cat(<Option<Vec<String>>>::bytes_of(a.founding_features), ra7, x);
        lemma_cat(<Option<Vec<String>>>::bytes_of(b.founding_features), rb7, y);
        <Option<Vec<String>>>::prefix_free(a.founding_features, b.founding_features, ra7 + x, rb7 + y);
        let ra8 = <Vec<AppliedGroup>>::bytes_of(a.applied) + (<Vec<u64>>::bytes_of(a.consumed_ids) + (<Vec<Anchor>>::bytes_of(a.anchors) + (<Vec<RelayDeclaration>>::bytes_of(a.member_relays) + (u64::bytes_of(a.upto)))));
        let rb8 = <Vec<AppliedGroup>>::bytes_of(b.applied) + (<Vec<u64>>::bytes_of(b.consumed_ids) + (<Vec<Anchor>>::bytes_of(b.anchors) + (<Vec<RelayDeclaration>>::bytes_of(b.member_relays) + (u64::bytes_of(b.upto)))));
        lemma_cat(<Vec<MemberIdentity>>::bytes_of(a.roster), ra8, x);
        lemma_cat(<Vec<MemberIdentity>>::bytes_of(b.roster), rb8, y);
        <Vec<MemberIdentity>>::prefix_free(a.roster, b.roster, ra8 + x, rb8 + y);
        let ra9 = <Vec<u64>>::bytes_of(a.consumed_ids) + (<Vec<Anchor>>::bytes_of(a.anchors) + (<Vec<RelayDeclaration>>::bytes_of(a.member_relays) + (u64::bytes_of(a.upto))));
        let rb9 = <Vec<u64>>::bytes_of(b.consumed_ids) + (<Vec<Anchor>>::bytes_of(b.anchors) + (<Vec<RelayDeclaration>>::bytes_of(b.member_relays) + (u64::bytes_of(b.upto))));
        lemma_cat(<Vec<AppliedGroup>>::bytes_of(a.applied), ra9, x);
        lemma_cat(<Vec<AppliedGroup>>::bytes_of(b.applied), rb9, y);
        <Vec<AppliedGroup>>::prefix_free(a.applied, b.applied, ra9 + x, rb9 + y);
        let ra10 = <Vec<Anchor>>::bytes_of(a.anchors) + (<Vec<RelayDeclaration>>::bytes_of(a.member_relays) + (u64::bytes_of(a.upto)));
        let rb10 = <Vec<Anchor>>::bytes_of(b.anchors) + (<Vec<RelayDeclaration>>::bytes_of(b.member_relays) + (u64::bytes_of(b.upto)));
        lemma_cat(<Vec<u64>>::bytes_of(a.consumed_ids), ra10, x);
        lemma_cat(<Vec<u64>>::bytes_of(b.consumed_ids), rb10, y);
        <Vec<u64>>::prefix_free(a.consumed_ids, b.consumed_ids, ra10 + x, rb10 + y);
        let ra11 = <Vec<RelayDeclaration>>::bytes_of(a.member_relays) + (u64::bytes_of(a.upto));
        let rb11 = <Vec<RelayDeclaration>>::bytes_of(b.member_relays) + (u64::bytes_of(b.upto));
        lemma_cat(<Vec<Anchor>>::bytes_of(a.anchors), ra11, x);
        lemma_cat(<Vec<Anchor>>::bytes_of(b.anchors), rb11, y);
        <Vec<Anchor>>::prefix_free(a.anchors, b.anchors, ra11 + x, rb11 + y);
        let ra12 = u64::bytes_of(a.upto);
        let rb12 = u64::bytes_of(b.upto);
        lemma_cat(<Vec<RelayDeclaration>>::bytes_of(a.member_relays), ra12, x);
        lemma_cat(<Vec<RelayDeclaration>>::bytes_of(b.member_relays), rb12, y);
        <Vec<RelayDeclaration>>::prefix_free(a.member_relays, b.member_relays, ra12 + x, rb12 + y);
        u64::prefix_free(a.upto, b.upto, x, y);
    }

    fn put(&self, out: &mut Vec<u8>) {
        let ghost o0 = out@;
        self.founding_name.put(out);
        let ghost o1 = out@;
        self.rule_m.put(out);
        let ghost o2 = out@;
        self.rule_n.put(out);
        let ghost o3 = out@;
        self.founding_identities.put(out);
        let ghost o4 = out@;
        self.agenda.put(out);
        let ghost o5 = out@;
        self.republic_id.put(out);
        let ghost o6 = out@;
        self.relays.put(out);
        let ghost o7 = out@;
        self.founding_features.put(out);
        let ghost o8 = out@;
        self.roster.put(out);
        let ghost o9 = out@;
        self.applied.put(out);
        let ghost o10 = out@;
        self.consumed_ids.put(out);
        let ghost o11 = out@;
        self.anchors.put(out);
        let ghost o12 = out@;
        self.member_relays.put(out);
        self.upto.put(out);
        proof {
            let t13 = u64::bytes_of(self.upto.deep_view());
            lemma_cat(o12, <Vec<RelayDeclaration>>::bytes_of(self.member_relays.deep_view()), t13);
            let t12 = <Vec<RelayDeclaration>>::bytes_of(self.member_relays.deep_view()) + t13;
            lemma_cat(o11, <Vec<Anchor>>::bytes_of(self.anchors.deep_view()), t12);
            let t11 = <Vec<Anchor>>::bytes_of(self.anchors.deep_view()) + t12;
            lemma_cat(o10, <Vec<u64>>::bytes_of(self.consumed_ids.deep_view()), t11);
            let t10 = <Vec<u64>>::bytes_of(self.consumed_ids.deep_view()) + t11;
            lemma_cat(o9, <Vec<AppliedGroup>>::bytes_of(self.applied.deep_view()), t10);
            let t9 = <Vec<AppliedGroup>>::bytes_of(self.applied.deep_view()) + t10;
            lemma_cat(o8, <Vec<MemberIdentity>>::bytes_of(self.roster.deep_view()), t9);
            let t8 = <Vec<MemberIdentity>>::bytes_of(self.roster.deep_view()) + t9;
            lemma_cat(o7, <Option<Vec<String>>>::bytes_of(self.founding_features.deep_view()), t8);
            let t7 = <Option<Vec<String>>>::bytes_of(self.founding_features.deep_view()) + t8;
            lemma_cat(o6, <Vec<String>>::bytes_of(self.relays.deep_view()), t7);
            let t6 = <Vec<String>>::bytes_of(self.relays.deep_view()) + t7;
            lemma_cat(o5, String::bytes_of(self.republic_id.deep_view()), t6);
            let t5 = String::bytes_of(self.republic_id.deep_view()) + t6;
            lemma_cat(o4, String::bytes_of(self.agenda.deep_view()), t5);
            let t4 = String::bytes_of(self.agenda.deep_view()) + t5;
            lemma_cat(o3, <Vec<MemberIdentity>>::bytes_of(self.founding_identities.deep_view()), t4);
            let t3 = <Vec<MemberIdentity>>::bytes_of(self.founding_identities.deep_view()) + t4;
            lemma_cat(o2, u8::bytes_of(self.rule_n.deep_view()), t3);
            let t2 = u8::bytes_of(self.rule_n.deep_view()) + t3;
            lemma_cat(o1, u8::bytes_of(self.rule_m.deep_view()), t2);
            let t1 = u8::bytes_of(self.rule_m.deep_view()) + t2;
            lemma_cat(o0, String::bytes_of(self.founding_name.deep_view()), t1);
        }
    }
}

/// The `prev` of a first block.
pub const GENESIS_PREV: &'static str = "0000000000000000000000000000000000000000000000000000000000000000";

/// What the members sign when they approve `change` at `height`. A founding
/// is signed as the constitution itself.
#[verifier::opaque]
pub open spec fn approval_bytes_of(republic_id: Seq<char>, height: u64, change: ChangeV) -> Seq<u8> {
    match change {
        ChangeV::Genesis { .. } => roster_bytes_of(change),
        _ => encode_utf8("molt-chain-approval-v1\0"@) + (text_bytes(republic_id) + (number_bytes(
            height as nat,
        ) + ChainChange::bytes_of(change))),
    }
}

/// The constitution's bytes, as a founding's change carries them.
#[verifier::opaque]
pub open spec fn roster_bytes_of(change: ChangeV) -> Seq<u8> {
    encode_utf8("molt-roster-v5\0"@) + ChainChange::bytes_of(change)
}

/// What the next block's `prev` is the hash of.
#[verifier::opaque]
pub open spec fn block_link_bytes_of(republic_id: Seq<char>, block: BlockV) -> Seq<u8> {
    encode_utf8("molt-chain-block-v1\0"@) + (text_bytes(republic_id) + ChainBlock::bytes_of(block))
}

/// What a returning member signs to take its seat back.
#[verifier::opaque]
pub open spec fn restore_consent_bytes_of(
    republic_id: Seq<char>,
    member: Seq<char>,
    identity_pk: Seq<char>,
    nostr_pk: Seq<char>,
) -> Seq<u8> {
    encode_utf8("molt-restore-consent-v1\0"@) + (text_bytes(republic_id) + (text_bytes(member) + (
    text_bytes(identity_pk) + text_bytes(nostr_pk))))
}

/// What a returning member signs to prove its seat: the ticket, the fresh key
/// package, and the transport key and relays that it declares.
#[verifier::opaque]
pub open spec fn seat_proof_bytes_of(
    ticket: Seq<char>,
    key_package: Seq<char>,
    republic_id: Seq<char>,
    nostr_pk: Seq<char>,
    relays: Seq<Seq<char>>,
) -> Seq<u8> {
    encode_utf8("molt-seat-proof-v1\0"@) + (text_bytes(ticket) + (text_bytes(key_package) + (
    text_bytes(republic_id) + (text_bytes(nostr_pk) + <Vec<String> as Canonical>::bytes_of(relays)))))
}

/// What a checkpoint's state hash covers.
#[verifier::opaque]
pub open spec fn checkpoint_bytes_of(state: SummaryV) -> Seq<u8> {
    encode_utf8("molt-chain-checkpoint-v6\0"@) + CheckpointState::bytes_of(state)
}

/// What a republic's id is the hash of.
#[verifier::opaque]
pub open spec fn founding_bytes_of(
    name: Seq<char>,
    rule_m: u8,
    rule_n: u8,
    identities: Seq<IdentityV>,
) -> Seq<u8> {
    encode_utf8("molt-republic-id-v2\0"@) + (text_bytes(name) + (seq![rule_m] + (seq![rule_n] + <Vec<
        MemberIdentity,
    >>::bytes_of(identities))))
}

/// What the members sign when they approve `change` at `height`.
pub fn approval_bytes(republic_id: &str, height: u64, change: &ChainChange) -> (r: Vec<u8>)
    ensures
        r@ == approval_bytes_of(republic_id@, height, change.deep_view()),
{
    proof {
        reveal(approval_bytes_of);
        reveal(roster_bytes_of);
    }
    let mut out: Vec<u8> = Vec::new();
    match change {
        ChainChange::Genesis { .. } => {
            put_raw(&mut out, "molt-roster-v5\0".as_bytes());
            change.put(&mut out);
            assert(out@ =~= roster_bytes_of(change.deep_view()));
        },
        _ => {
            put_raw(&mut out, "molt-chain-approval-v1\0".as_bytes());
            put_text(&mut out, republic_id);
            put_number(&mut out, height);
            change.put(&mut out);
            assert(out@ =~= approval_bytes_of(republic_id@, height, change.deep_view()));
        },
    }
    out
}

/// What the next block's `prev` is the hash of.
pub fn block_link_bytes(republic_id: &str, block: &ChainBlock) -> (r: Vec<u8>)
    ensures
        r@ == block_link_bytes_of(republic_id@, block.deep_view()),
{
    proof {
        reveal(block_link_bytes_of);
    }
    let mut out: Vec<u8> = Vec::new();
    put_raw(&mut out, "molt-chain-block-v1\0".as_bytes());
    put_text(&mut out, republic_id);
    block.put(&mut out);
    assert(out@ =~= block_link_bytes_of(republic_id@, block.deep_view()));
    out
}

/// What a returning member signs to take its seat back.
pub fn restore_consent_bytes(
    republic_id: &str,
    member: &str,
    identity_pk: &str,
    nostr_pk: &str,
) -> (r: Vec<u8>)
    ensures
        r@ == restore_consent_bytes_of(republic_id@, member@, identity_pk@, nostr_pk@),
{
    proof {
        reveal(restore_consent_bytes_of);
    }
    let mut out: Vec<u8> = Vec::new();
    put_raw(&mut out, "molt-restore-consent-v1\0".as_bytes());
    put_text(&mut out, republic_id);
    put_text(&mut out, member);
    put_text(&mut out, identity_pk);
    put_text(&mut out, nostr_pk);
    assert(out@ =~= restore_consent_bytes_of(republic_id@, member@, identity_pk@, nostr_pk@));
    out
}

/// What a returning member signs to prove its seat.
pub fn seat_proof_bytes(
    ticket: &str,
    key_package: &str,
    republic_id: &str,
    nostr_pk: &str,
    relays: &Vec<String>,
) -> (r: Vec<u8>)
    ensures
        r@ == seat_proof_bytes_of(
            ticket@,
            key_package@,
            republic_id@,
            nostr_pk@,
            relays.deep_view(),
        ),
{
    proof {
        reveal(seat_proof_bytes_of);
    }
    let mut out: Vec<u8> = Vec::new();
    put_raw(&mut out, "molt-seat-proof-v1\0".as_bytes());
    put_text(&mut out, ticket);
    put_text(&mut out, key_package);
    put_text(&mut out, republic_id);
    put_text(&mut out, nostr_pk);
    relays.put(&mut out);
    assert(out@ =~= seat_proof_bytes_of(
        ticket@,
        key_package@,
        republic_id@,
        nostr_pk@,
        relays.deep_view(),
    ));
    out
}

/// What a checkpoint's state hash covers.
pub fn checkpoint_canonical_bytes(state: &CheckpointState) -> (r: Vec<u8>)
    ensures
        r@ == checkpoint_bytes_of(state.deep_view()),
{
    proof {
        reveal(checkpoint_bytes_of);
    }
    let mut out: Vec<u8> = Vec::new();
    put_raw(&mut out, "molt-chain-checkpoint-v6\0".as_bytes());
    state.put(&mut out);
    assert(out@ =~= checkpoint_bytes_of(state.deep_view()));
    out
}

/// What a republic's id is the hash of.
pub fn founding_bytes(
    name: &str,
    rule_m: u8,
    rule_n: u8,
    identities: &Vec<MemberIdentity>,
) -> (r: Vec<u8>)
    ensures
        r@ == founding_bytes_of(name@, rule_m, rule_n, identities.deep_view()),
{
    proof {
        reveal(founding_bytes_of);
    }
    let mut out: Vec<u8> = Vec::new();
    put_raw(&mut out, "molt-republic-id-v2\0".as_bytes());
    put_text(&mut out, name);
    out.push(rule_m);
    out.push(rule_n);
    identities.put(&mut out);
    assert(out@ =~= founding_bytes_of(name@, rule_m, rule_n, identities.deep_view()));
    out
}

/// An approval binds the republic, the height and the whole change: two
/// approvals of the same bytes approve the same thing.
pub proof fn approval_bytes_are_binding(
    rid_a: Seq<char>,
    height_a: u64,
    a: ChangeV,
    rid_b: Seq<char>,
    height_b: u64,
    b: ChangeV,
)
    requires
        !(a is Genesis),
        !(b is Genesis),
        approval_bytes_of(rid_a, height_a, a) == approval_bytes_of(rid_b, height_b, b),
    ensures
        rid_a == rid_b,
        height_a == height_b,
        a == b,
{
    reveal(approval_bytes_of);
    let tag = encode_utf8("molt-chain-approval-v1\0"@);
    let ca = ChainChange::bytes_of(a);
    let cb = ChainChange::bytes_of(b);
    let l = approval_bytes_of(rid_a, height_a, a);
    let r = approval_bytes_of(rid_b, height_b, b);
    assert(l.skip(tag.len() as int) =~= text_bytes(rid_a) + (number_bytes(height_a as nat) + ca));
    assert(r.skip(tag.len() as int) =~= text_bytes(rid_b) + (number_bytes(height_b as nat) + cb));
    <String as Canonical>::prefix_free(
        rid_a,
        rid_b,
        number_bytes(height_a as nat) + ca,
        number_bytes(height_b as nat) + cb,
    );
    lemma_number_prefix_free(height_a as nat, height_b as nat, ca, cb);
    assert(ca + Seq::<u8>::empty() =~= cb + Seq::<u8>::empty());
    ChainChange::prefix_free(a, b, Seq::empty(), Seq::empty());
}

/// A founding's signatures bind its whole constitution.
pub proof fn founding_approval_is_binding(
    rid_a: Seq<char>,
    a: ChangeV,
    rid_b: Seq<char>,
    b: ChangeV,
)
    requires
        a is Genesis,
        b is Genesis,
        approval_bytes_of(rid_a, 0, a) == approval_bytes_of(rid_b, 0, b),
    ensures
        a == b,
{
    reveal(approval_bytes_of);
    reveal(roster_bytes_of);
    let tag = encode_utf8("molt-roster-v5\0"@);
    let ca = ChainChange::bytes_of(a);
    let cb = ChainChange::bytes_of(b);
    assert(roster_bytes_of(a).skip(tag.len() as int) =~= ca);
    assert(roster_bytes_of(b).skip(tag.len() as int) =~= cb);
    assert(ca + Seq::<u8>::empty() =~= cb + Seq::<u8>::empty());
    ChainChange::prefix_free(a, b, Seq::empty(), Seq::empty());
}

/// A block's link bytes bind the block whole, its signatures too.
pub proof fn block_link_bytes_are_binding(rid_a: Seq<char>, a: BlockV, rid_b: Seq<char>, b: BlockV)
    requires
        block_link_bytes_of(rid_a, a) == block_link_bytes_of(rid_b, b),
    ensures
        rid_a == rid_b,
        a == b,
{
    reveal(block_link_bytes_of);
    let tag = encode_utf8("molt-chain-block-v1\0"@);
    let ca = ChainBlock::bytes_of(a);
    let cb = ChainBlock::bytes_of(b);
    assert(block_link_bytes_of(rid_a, a).skip(tag.len() as int) =~= text_bytes(rid_a) + ca);
    assert(block_link_bytes_of(rid_b, b).skip(tag.len() as int) =~= text_bytes(rid_b) + cb);
    <String as Canonical>::prefix_free(rid_a, rid_b, ca, cb);
    assert(ca + Seq::<u8>::empty() =~= cb + Seq::<u8>::empty());
    ChainBlock::prefix_free(a, b, Seq::empty(), Seq::empty());
}

/// A checkpoint's bytes bind everything that it summarizes.
#[verifier::rlimit(40)]
pub proof fn checkpoint_bytes_are_binding(a: SummaryV, b: SummaryV)
    requires
        checkpoint_bytes_of(a) == checkpoint_bytes_of(b),
    ensures
        a == b,
{
    reveal(checkpoint_bytes_of);
    let tag = encode_utf8("molt-chain-checkpoint-v6\0"@);
    let ca = CheckpointState::bytes_of(a);
    let cb = CheckpointState::bytes_of(b);
    assert(checkpoint_bytes_of(a).skip(tag.len() as int) =~= ca);
    assert(checkpoint_bytes_of(b).skip(tag.len() as int) =~= cb);
    assert(ca + Seq::<u8>::empty() =~= cb + Seq::<u8>::empty());
    CheckpointState::prefix_free(a, b, Seq::empty(), Seq::empty());
}

/// A republic's id is taken over its name, its rule and its whole founding
/// roster.
pub proof fn founding_bytes_are_binding(
    name_a: Seq<char>,
    m_a: u8,
    n_a: u8,
    a: Seq<IdentityV>,
    name_b: Seq<char>,
    m_b: u8,
    n_b: u8,
    b: Seq<IdentityV>,
)
    requires
        founding_bytes_of(name_a, m_a, n_a, a) == founding_bytes_of(name_b, m_b, n_b, b),
    ensures
        name_a == name_b,
        m_a == m_b,
        n_a == n_b,
        a == b,
{
    reveal(founding_bytes_of);
    let tag = encode_utf8("molt-republic-id-v2\0"@);
    let ia = <Vec<MemberIdentity>>::bytes_of(a);
    let ib = <Vec<MemberIdentity>>::bytes_of(b);
    let ta = seq![m_a] + (seq![n_a] + ia);
    let tb = seq![m_b] + (seq![n_b] + ib);
    assert(founding_bytes_of(name_a, m_a, n_a, a).skip(tag.len() as int) =~= text_bytes(name_a) + ta);
    assert(founding_bytes_of(name_b, m_b, n_b, b).skip(tag.len() as int) =~= text_bytes(name_b) + tb);
    <String as Canonical>::prefix_free(name_a, name_b, ta, tb);
    <u8 as Canonical>::prefix_free(m_a, m_b, seq![n_a] + ia, seq![n_b] + ib);
    <u8 as Canonical>::prefix_free(n_a, n_b, ia, ib);
    assert(ia + Seq::<u8>::empty() =~= ib + Seq::<u8>::empty());
    <Vec<MemberIdentity>>::prefix_free(a, b, Seq::empty(), Seq::empty());
}

/// A consent binds the republic, the seat, its key and the transport key that
/// it comes back with: one given for another seat or key is no consent to this.
pub proof fn restore_consent_bytes_are_binding(
    rid_a: Seq<char>,
    member_a: Seq<char>,
    key_a: Seq<char>,
    nostr_a: Seq<char>,
    rid_b: Seq<char>,
    member_b: Seq<char>,
    key_b: Seq<char>,
    nostr_b: Seq<char>,
)
    requires
        restore_consent_bytes_of(rid_a, member_a, key_a, nostr_a) == restore_consent_bytes_of(
            rid_b,
            member_b,
            key_b,
            nostr_b,
        ),
    ensures
        rid_a == rid_b,
        member_a == member_b,
        key_a == key_b,
        nostr_a == nostr_b,
{
    reveal(restore_consent_bytes_of);
    let tag = encode_utf8("molt-restore-consent-v1\0"@);
    let na = text_bytes(nostr_a);
    let nb = text_bytes(nostr_b);
    let ka = text_bytes(key_a) + na;
    let kb = text_bytes(key_b) + nb;
    let ma = text_bytes(member_a) + ka;
    let mb = text_bytes(member_b) + kb;
    let a = restore_consent_bytes_of(rid_a, member_a, key_a, nostr_a);
    let b = restore_consent_bytes_of(rid_b, member_b, key_b, nostr_b);
    assert(a.skip(tag.len() as int) =~= text_bytes(rid_a) + ma);
    assert(b.skip(tag.len() as int) =~= text_bytes(rid_b) + mb);
    <String as Canonical>::prefix_free(rid_a, rid_b, ma, mb);
    <String as Canonical>::prefix_free(member_a, member_b, ka, kb);
    <String as Canonical>::prefix_free(key_a, key_b, na, nb);
    assert(na + Seq::<u8>::empty() =~= nb + Seq::<u8>::empty());
    <String as Canonical>::prefix_free(nostr_a, nostr_b, Seq::empty(), Seq::empty());
}

/// A seat proof binds the ticket, the key package, the republic, the transport
/// key and every relay: one made for another request proves nothing of this.
pub proof fn seat_proof_bytes_are_binding(
    ticket_a: Seq<char>,
    package_a: Seq<char>,
    rid_a: Seq<char>,
    nostr_a: Seq<char>,
    relays_a: Seq<Seq<char>>,
    ticket_b: Seq<char>,
    package_b: Seq<char>,
    rid_b: Seq<char>,
    nostr_b: Seq<char>,
    relays_b: Seq<Seq<char>>,
)
    requires
        seat_proof_bytes_of(ticket_a, package_a, rid_a, nostr_a, relays_a) == seat_proof_bytes_of(
            ticket_b,
            package_b,
            rid_b,
            nostr_b,
            relays_b,
        ),
    ensures
        ticket_a == ticket_b,
        package_a == package_b,
        rid_a == rid_b,
        nostr_a == nostr_b,
        relays_a == relays_b,
{
    reveal(seat_proof_bytes_of);
    let tag = encode_utf8("molt-seat-proof-v1\0"@);
    let la = <Vec<String> as Canonical>::bytes_of(relays_a);
    let lb = <Vec<String> as Canonical>::bytes_of(relays_b);
    let na = text_bytes(nostr_a) + la;
    let nb = text_bytes(nostr_b) + lb;
    let ra = text_bytes(rid_a) + na;
    let rb = text_bytes(rid_b) + nb;
    let pa = text_bytes(package_a) + ra;
    let pb = text_bytes(package_b) + rb;
    let a = seat_proof_bytes_of(ticket_a, package_a, rid_a, nostr_a, relays_a);
    let b = seat_proof_bytes_of(ticket_b, package_b, rid_b, nostr_b, relays_b);
    assert(a.skip(tag.len() as int) =~= text_bytes(ticket_a) + pa);
    assert(b.skip(tag.len() as int) =~= text_bytes(ticket_b) + pb);
    <String as Canonical>::prefix_free(ticket_a, ticket_b, pa, pb);
    <String as Canonical>::prefix_free(package_a, package_b, ra, rb);
    <String as Canonical>::prefix_free(rid_a, rid_b, na, nb);
    <String as Canonical>::prefix_free(nostr_a, nostr_b, la, lb);
    assert(la + Seq::<u8>::empty() =~= lb + Seq::<u8>::empty());
    <Vec<String> as Canonical>::prefix_free(relays_a, relays_b, Seq::empty(), Seq::empty());
}

/// A payload's bytes bind the payload: a decline of one is no decline of
/// another.
pub proof fn payload_bytes_are_binding(a: PayloadV, b: PayloadV)
    requires
        payload_bytes(a) == payload_bytes(b),
    ensures
        a == b,
{
    assert(payload_bytes(a) + Seq::<u8>::empty() =~= payload_bytes(b) + Seq::<u8>::empty());
    <Payload as Canonical>::prefix_free(a, b, Seq::empty(), Seq::empty());
}

} // verus!
