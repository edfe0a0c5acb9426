use vstd::prelude::*;
use vstd::utf8::{valid_utf8, decode_utf8};
use crate::byte_order::{bytes_lt, bytes_less, bytes_equal, lemma_bytes_lt_total, lemma_bytes_lt_transitive, lemma_bytes_lt_irreflexive};

verus! {

broadcast use vstd::std_specs::vec::axiom_vec_index_decreases;

/// The mathematical model of a bencode value.
pub enum BValue {
    Int(int),
    Str(Seq<u8>),
    List(Seq<BValue>),
    Dict(Seq<(Seq<u8>, BValue)>),
}

/// A decoded bencode value.
#[derive(Debug, PartialEq, Eq)]
pub enum BencodeType {
    Integer(i64),
    List(Vec<BencodeType>),
    Dictionary(BencodeMap),
    String(Vec<u8>),
}

/// A bencode dictionary: entries kept in strictly ascending byte order of their keys.
#[derive(Debug, PartialEq, Eq)]
pub struct BencodeMap {
    entries: Vec<(Vec<u8>, BencodeType)>,
}

pub open spec fn view_list(items: Seq<BencodeType>) -> Seq<BValue>
    decreases items,
{
    if items.len() == 0 {
        Seq::empty()
    } else {
        seq![items[0].view()] + view_list(items.subrange(1, items.len() as int))
    }
}

pub open spec fn view_entries(entries: Seq<(Vec<u8>, BencodeType)>) -> Seq<(Seq<u8>, BValue)>
    decreases entries,
{
    if entries.len() == 0 {
        Seq::empty()
    } else {
        seq![(entries[0].0@, entries[0].1.view())] + view_entries(
            entries.subrange(1, entries.len() as int),
        )
    }
}

impl View for BencodeType {
    type V = BValue;

    open spec fn view(&self) -> BValue
        decreases self,
    {
        match self {
            BencodeType::Integer(x) => BValue::Int(*x as int),
            BencodeType::String(b) => BValue::Str(b@),
            BencodeType::List(items) => BValue::List(view_list(items@)),
            BencodeType::Dictionary(m) => BValue::Dict(m.view()),
        }
    }
}

impl View for BencodeMap {
    type V = Seq<(Seq<u8>, BValue)>;

    closed spec fn view(&self) -> Seq<(Seq<u8>, BValue)>
        decreases self,
    {
        view_entries(self.entries@)
    }
}

impl Clone for BencodeType {
    fn clone(&self) -> (r: Self)
        ensures
            r@ == self@,
        decreases self,
    {
        match self {
            BencodeType::Integer(x) => BencodeType::Integer(*x),
            BencodeType::String(b) => BencodeType::String(b.clone()),
            BencodeType::List(items) => {
                let mut out: Vec<BencodeType> = Vec::new();
                let mut i: usize = 0;
                while i < items.len()
                    invariant
                        *self == BencodeType::List(*items),
                        i <= items.len(),
                        view_list(out@) == view_list(items@.subrange(0, i as int)),
                    decreases items.len() - i,
                {
                    proof {
                        assert(decreases_to!(*self => self->List_0));
                        assert(decreases_to!(self->List_0 => self->List_0[i as int]));
                    }
                    let c = items[i].clone();
                    proof {
                        lemma_view_list_push(out@, c);
                        lemma_view_list_push(items@.subrange(0, i as int), items@[i as int]);
                        assert(items@.subrange(0, i as int).push(items@[i as int]) =~= items@.subrange(0, i + 1));
                    }
                    out.push(c);
                    i += 1;
                }
                assert(items@.subrange(0, items.len() as int) =~= items@);
                BencodeType::List(out)
            },
            BencodeType::Dictionary(m) => BencodeType::Dictionary(m.clone()),
        }
    }
}

impl Clone for BencodeMap {
    fn clone(&self) -> (r: Self)
        ensures
            r@ == self@,
        decreases self,
    {
        let mut out: Vec<(Vec<u8>, BencodeType)> = Vec::new();
        let mut i: usize = 0;
        while i < self.entries.len()
            invariant
                i <= self.entries.len(),
                view_entries(out@) == view_entries(self.entries@.subrange(0, i as int)),
            decreases self.entries.len() - i,
        {
            let k = self.entries[i].0.clone();
            let v = self.entries[i].1.clone();
            proof {
                lemma_view_entries_push(out@, (k, v));
                lemma_view_entries_push(self.entries@.subrange(0, i as int), self.entries@[i as int]);
                assert(self.entries@.subrange(0, i as int).push(self.entries@[i as int]) =~= self.entries@.subrange(0, i + 1));
            }
            out.push((k, v));
            i += 1;
        }
        assert(self.entries@.subrange(0, self.entries.len() as int) =~= self.entries@);
        proof {
            use_type_invariant(self);
        }
        BencodeMap { entries: out }
    }
}

pub proof fn lemma_view_list_push(items: Seq<BencodeType>, x: BencodeType)
    ensures
        view_list(items.push(x)) == view_list(items).push(x@),
    decreases items.len(),
{
    if items.len() == 0 {
        assert(items.push(x).subrange(1, 1) =~= Seq::<BencodeType>::empty());
        assert(view_list(Seq::<BencodeType>::empty()) =~= Seq::<BValue>::empty());
        assert(view_list(items.push(x)) =~= seq![x@]);
    } else {
        let tail = items.subrange(1, items.len() as int);
        assert(items.push(x).subrange(1, items.len() + 1int) =~= tail.push(x));
        lemma_view_list_push(tail, x);
        assert(items.push(x)[0] == items[0]);
        assert(view_list(items.push(x)) == seq![items[0]@] + view_list(tail.push(x)));
        assert(view_list(items) == seq![items[0]@] + view_list(tail));
        assert(view_list(items.push(x)) =~= view_list(items).push(x@));
    }
}

pub proof fn lemma_view_entries_push(entries: Seq<(Vec<u8>, BencodeType)>, e: (Vec<u8>, BencodeType))
    ensures
        view_entries(entries.push(e)) == view_entries(entries).push((e.0@, e.1@)),
    decreases entries.len(),
{
    if entries.len() == 0 {
        assert(entries.push(e).subrange(1, 1) =~= Seq::<(Vec<u8>, BencodeType)>::empty());
        assert(view_entries(Seq::<(Vec<u8>, BencodeType)>::empty()) =~= Seq::<(Seq<u8>, BValue)>::empty());
        assert(view_entries(entries.push(e)) =~= seq![(e.0@, e.1@)]);
    } else {
        let tail = entries.subrange(1, entries.len() as int);
        assert(entries.push(e).subrange(1, entries.len() + 1int) =~= tail.push(e));
        lemma_view_entries_push(tail, e);
        assert(entries.push(e)[0] == entries[0]);
        assert(view_entries(entries.push(e)) == seq![(entries[0].0@, entries[0].1@)] + view_entries(tail.push(e)));
        assert(view_entries(entries) == seq![(entries[0].0@, entries[0].1@)] + view_entries(tail));
        assert(view_entries(entries.push(e)) =~= view_entries(entries).push((e.0@, e.1@)));
    }
}

pub const INT_PREFIX: u8 = 105;
pub const LIST_PREFIX: u8 = 108;
pub const DICTIONARY_PREFIX: u8 = 100;
pub const VALUE_SUFFIX: u8 = 101;
pub const STRING_DELIMITER: u8 = 58;
pub const MINUS_SIGN: u8 = 45;

pub open spec fn is_digit(b: u8) -> bool {
    48 <= b <= 57
}

/// The decimal digits of `n`, most significant first, without leading zeros.
pub open spec fn nat_digits(n: nat) -> Seq<u8>
    decreases n,
{
    if n < 10 {
        seq![(48 + n) as u8]
    } else {
        nat_digits(n / 10) + seq![(48 + n % 10) as u8]
    }
}

/// The decimal text of an integer, with a leading minus sign when negative.
pub open spec fn int_text(x: int) -> Seq<u8> {
    if x < 0 {
        seq![MINUS_SIGN] + nat_digits((-x) as nat)
    } else {
        nat_digits(x as nat)
    }
}

/// `<len>:<bytes>`
pub open spec fn encode_bytes(b: Seq<u8>) -> Seq<u8> {
    nat_digits(b.len()) + seq![STRING_DELIMITER] + b
}

/// The canonical bencoding of a value.
pub open spec fn encode_value(v: BValue) -> Seq<u8>
    decreases v,
{
    match v {
        BValue::Int(x) => seq![INT_PREFIX] + int_text(x) + seq![VALUE_SUFFIX],
        BValue::Str(b) => encode_bytes(b),
        BValue::List(items) => seq![LIST_PREFIX] + encode_list(items) + seq![VALUE_SUFFIX],
        BValue::Dict(entries) => seq![DICTIONARY_PREFIX] + encode_dict(entries) + seq![
            VALUE_SUFFIX,
        ],
    }
}

/// The concatenated encodings of list items.
pub open spec fn encode_list(items: Seq<BValue>) -> Seq<u8>
    decreases items,
{
    if items.len() == 0 {
        Seq::empty()
    } else {
        encode_value(items[0]) + encode_list(items.subrange(1, items.len() as int))
    }
}

/// The concatenated key/value encodings of dictionary entries, in their stored order.
pub open spec fn encode_dict(entries: Seq<(Seq<u8>, BValue)>) -> Seq<u8>
    decreases entries,
{
    if entries.len() == 0 {
        Seq::empty()
    } else {
        encode_bytes(entries[0].0) + encode_value(entries[0].1) + encode_dict(
            entries.subrange(1, entries.len() as int),
        )
    }
}

/// The concatenated encodings of a sequence of top-level values.
pub open spec fn encode_all(values: Seq<BValue>) -> Seq<u8> {
    encode_list(values)
}

pub proof fn lemma_encode_list_push(items: Seq<BValue>, x: BValue)
    ensures
        encode_list(items.push(x)) == encode_list(items) + encode_value(x),
    decreases items.len(),
{
    if items.len() == 0 {
        assert(items.push(x).subrange(1, 1) =~= Seq::<BValue>::empty());
        assert(encode_list(Seq::<BValue>::empty()) =~= Seq::<u8>::empty());
        assert(encode_list(items.push(x)) =~= encode_list(items) + encode_value(x));
    } else {
        let tail = items.subrange(1, items.len() as int);
        assert(items.push(x).subrange(1, items.len() + 1int) =~= tail.push(x));
        lemma_encode_list_push(tail, x);
        assert(items.push(x)[0] == items[0]);
        assert(encode_list(items.push(x)) =~= encode_list(items) + encode_value(x));
    }
}

pub proof fn lemma_encode_dict_push(entries: Seq<(Seq<u8>, BValue)>, e: (Seq<u8>, BValue))
    ensures
        encode_dict(entries.push(e)) == encode_dict(entries) + encode_bytes(e.0) + encode_value(e.1),
    decreases entries.len(),
{
    if entries.len() == 0 {
        assert(entries.push(e).subrange(1, 1) =~= Seq::<(Seq<u8>, BValue)>::empty());
        assert(encode_dict(Seq::<(Seq<u8>, BValue)>::empty()) =~= Seq::<u8>::empty());
        assert(encode_dict(entries.push(e)) =~= encode_dict(entries) + encode_bytes(e.0)
            + encode_value(e.1));
    } else {
        let tail = entries.subrange(1, entries.len() as int);
        assert(entries.push(e).subrange(1, entries.len() + 1int) =~= tail.push(e));
        lemma_encode_dict_push(tail, e);
        assert(entries.push(e)[0] == entries[0]);
        assert(encode_dict(entries.push(e)) =~= encode_dict(entries) + encode_bytes(e.0)
            + encode_value(e.1));
    }
}

fn push_bytes(buf: &mut Vec<u8>, bytes: &[u8])
    ensures
        final(buf)@ == old(buf)@ + bytes@,
{
    let mut i: usize = 0;
    while i < bytes.len()
        invariant
            i <= bytes.len(),
            buf@ == old(buf)@ + bytes@.subrange(0, i as int),
        decreases bytes.len() - i,
    {
        buf.push(bytes[i]);
        i += 1;
        assert(buf@ =~= old(buf)@ + bytes@.subrange(0, i as int));
    }
    assert(bytes@.subrange(0, bytes.len() as int) =~= bytes@);
}

fn push_decimal(buf: &mut Vec<u8>, n: u64)
    ensures
        final(buf)@ == old(buf)@ + nat_digits(n as nat),
    decreases n,
{
    if n >= 10 {
        push_decimal(buf, n / 10);
    }
    buf.push((48 + n % 10) as u8);
    assert(buf@ =~= old(buf)@ + nat_digits(n as nat));
}

fn push_integer(buf: &mut Vec<u8>, x: i64)
    ensures
        final(buf)@ == old(buf)@ + int_text(x as int),
{
    if x < 0 {
        buf.push(MINUS_SIGN);
        let magnitude: u64 = if x == i64::MIN {
            9223372036854775808u64
        } else {
            (-x) as u64
        };
        push_decimal(buf, magnitude);
        assert(buf@ =~= old(buf)@ + int_text(x as int));
    } else {
        push_decimal(buf, x as u64);
    }
}

fn push_encoded_bytes(buf: &mut Vec<u8>, bytes: &[u8])
    ensures
        final(buf)@ == old(buf)@ + encode_bytes(bytes@),
        bytes@.len() <= usize::MAX,
{
    push_decimal(buf, bytes.len() as u64);
    buf.push(STRING_DELIMITER);
    push_bytes(buf, bytes);
    assert(buf@ =~= old(buf)@ + encode_bytes(bytes@));
}

fn encode_into(buf: &mut Vec<u8>, value: &BencodeType)
    ensures
        final(buf)@ == old(buf)@ + encode_value(value@),
        valid_value(value@),
    decreases value,
{
    match value {
        BencodeType::Integer(x) => {
            buf.push(INT_PREFIX);
            push_integer(buf, *x);
            buf.push(VALUE_SUFFIX);
            assert(buf@ =~= old(buf)@ + encode_value(value@));
        },
        BencodeType::String(b) => {
            push_encoded_bytes(buf, b.as_slice());
        },
        BencodeType::List(items) => {
            buf.push(LIST_PREFIX);
            let ghost start = buf@;
            let mut i: usize = 0;
            assert(items@.subrange(0, 0) =~= Seq::<BencodeType>::empty());
            assert(view_list(Seq::<BencodeType>::empty()) =~= Seq::<BValue>::empty());
            assert(valid_items(Seq::<BValue>::empty()));
            while i < items.len()
                invariant
                    *value == BencodeType::List(*items),
                    i <= items.len(),
                    buf@ == start + encode_list(view_list(items@.subrange(0, i as int))),
                    valid_items(view_list(items@.subrange(0, i as int))),
                decreases items.len() - i,
            {
                proof {
                    assert(decreases_to!(*value => value->List_0));
                    assert(decreases_to!(value->List_0 => value->List_0[i as int]));
                }
                encode_into(buf, &items[i]);
                proof {
                    let done = items@.subrange(0, i as int);
                    lemma_view_list_push(done, items@[i as int]);
                    assert(done.push(items@[i as int]) =~= items@.subrange(0, i + 1));
                    lemma_encode_list_push(view_list(done), items@[i as int]@);
                    lemma_valid_items_push(view_list(done), items@[i as int]@);
                }
                i += 1;
            }
            assert(items@.subrange(0, items.len() as int) =~= items@);
            buf.push(VALUE_SUFFIX);
            assert(buf@ =~= old(buf)@ + encode_value(value@));
        },
        BencodeType::Dictionary(m) => {
            buf.push(DICTIONARY_PREFIX);
            proof {
                assert(decreases_to!(*value => value->Dictionary_0));
            }
            m.encode_entries_into(buf);
            buf.push(VALUE_SUFFIX);
            assert(buf@ =~= old(buf)@ + encode_value(value@));
        },
    }
}

impl BencodeMap {
    fn encode_entries_into(&self, buf: &mut Vec<u8>)
        ensures
            final(buf)@ == old(buf)@ + encode_dict(self@),
            keys_sorted(self@),
            valid_entries(self@),
        decreases self,
    {
        proof {
            use_type_invariant(self);
        }
        let ghost start = buf@;
        let mut i: usize = 0;
        assert(self.entries@.subrange(0, 0) =~= Seq::<(Vec<u8>, BencodeType)>::empty());
        assert(view_entries(Seq::<(Vec<u8>, BencodeType)>::empty()) =~= Seq::<(Seq<u8>, BValue)>::empty());
        assert(valid_entries(Seq::<(Seq<u8>, BValue)>::empty()));
        while i < self.entries.len()
            invariant
                i <= self.entries.len(),
                buf@ == start + encode_dict(view_entries(self.entries@.subrange(0, i as int))),
                valid_entries(view_entries(self.entries@.subrange(0, i as int))),
            decreases self.entries.len() - i,
        {
            push_encoded_bytes(buf, self.entries[i].0.as_slice());
            proof {
                assert(decreases_to!(*self => self.entries));
                assert(decreases_to!(self.entries => self.entries[i as int]));
                assert(decreases_to!(self.entries[i as int] => self.entries[i as int].1));
            }
            encode_into(buf, &self.entries[i].1);
            proof {
                let done = self.entries@.subrange(0, i as int);
                lemma_view_entries_push(done, self.entries@[i as int]);
                assert(done.push(self.entries@[i as int]) =~= self.entries@.subrange(0, i + 1));
                lemma_encode_dict_push(
                    view_entries(done),
                    (self.entries@[i as int].0@, self.entries@[i as int].1@),
                );
                lemma_valid_entries_push(
                    view_entries(done),
                    (self.entries@[i as int].0@, self.entries@[i as int].1@),
                );
            }
            i += 1;
        }
        assert(self.entries@.subrange(0, self.entries.len() as int) =~= self.entries@);
    }
}

/// Encodes a value in canonical bencode form.
///
/// Every value is valid (its dictionaries hold ascending keys), so the encoding decodes back to it.
pub fn encode(value: &BencodeType) -> (r: Vec<u8>)
    ensures
        r@ == encode_value(value@),
        valid_value(value@),
        decode_spec(r@) == Ok::<Seq<BValue>, DecodeFault>(seq![value@]),
{
    let mut buf: Vec<u8> = Vec::new();
    encode_into(&mut buf, value);
    assert(buf@ =~= encode_value(value@));
    proof {
        lemma_decode_encode(value@);
    }
    buf
}

/// Encodes a sequence of values one after another.
///
/// The encoding decodes back to the same sequence of values.
pub fn encode_vec(values: &Vec<BencodeType>) -> (r: Vec<u8>)
    ensures
        r@ == encode_all(view_list(values@)),
        valid_items(view_list(values@)),
        decode_spec(r@) == Ok::<Seq<BValue>, DecodeFault>(view_list(values@)),
{
    let mut buf: Vec<u8> = Vec::new();
    let mut i: usize = 0;
    assert(values@.subrange(0, 0) =~= Seq::<BencodeType>::empty());
    assert(view_list(Seq::<BencodeType>::empty()) =~= Seq::<BValue>::empty());
    assert(valid_items(Seq::<BValue>::empty()));
    assert(encode_list(Seq::<BValue>::empty()) =~= Seq::<u8>::empty());
    while i < values.len()
        invariant
            i <= values.len(),
            buf@ == encode_list(view_list(values@.subrange(0, i as int))),
            valid_items(view_list(values@.subrange(0, i as int))),
        decreases values.len() - i,
    {
        encode_into(&mut buf, &values[i]);
        proof {
            let done = values@.subrange(0, i as int);
            lemma_view_list_push(done, values@[i as int]);
            assert(done.push(values@[i as int]) =~= values@.subrange(0, i + 1));
            lemma_encode_list_push(view_list(done), values@[i as int]@);
            lemma_valid_items_push(view_list(done), values@[i as int]@);
        }
        i += 1;
    }
    assert(values@.subrange(0, values.len() as int) =~= values@);
    proof {
        lemma_decode_encode_all(view_list(values@));
    }
    buf
}

/// Dictionary entries whose keys are in strictly ascending byte order.
pub open spec fn keys_sorted(entries: Seq<(Seq<u8>, BValue)>) -> bool {
    forall|i: int, j: int|
        0 <= i < j < entries.len() ==> #[trigger] bytes_lt(entries[i].0, entries[j].0)
}

/// Inserting into sorted entries: a present key has its value replaced, a new key goes to its
/// place in the order.
pub open spec fn dict_insert(entries: Seq<(Seq<u8>, BValue)>, key: Seq<u8>, value: BValue) -> Seq<
    (Seq<u8>, BValue),
>
    decreases entries.len(),
{
    if entries.len() == 0 {
        seq![(key, value)]
    } else if entries[0].0 == key {
        seq![(key, value)] + entries.subrange(1, entries.len() as int)
    } else if bytes_lt(key, entries[0].0) {
        seq![(key, value)] + entries
    } else {
        seq![entries[0]] + dict_insert(entries.subrange(1, entries.len() as int), key, value)
    }
}

/// The value stored under `key`, if any.
pub open spec fn dict_lookup(entries: Seq<(Seq<u8>, BValue)>, key: Seq<u8>) -> Option<BValue>
    decreases entries.len(),
{
    if entries.len() == 0 {
        None
    } else if entries[0].0 == key {
        Some(entries[0].1)
    } else {
        dict_lookup(entries.subrange(1, entries.len() as int), key)
    }
}

pub proof fn lemma_view_list_index(items: Seq<BencodeType>)
    ensures
        view_list(items).len() == items.len(),
        forall|i: int| 0 <= i < items.len() ==> #[trigger] view_list(items)[i] == items[i]@,
    decreases items.len(),
{
    if items.len() > 0 {
        let tail = items.subrange(1, items.len() as int);
        lemma_view_list_index(tail);
        assert(view_list(items) == seq![items[0]@] + view_list(tail));
        assert forall|i: int| 0 <= i < items.len() implies #[trigger] view_list(items)[i]
            == items[i]@ by {
            if i > 0 {
                assert(tail[i - 1] == items[i]);
            }
        }
    }
}

pub proof fn lemma_view_entries_index(entries: Seq<(Vec<u8>, BencodeType)>)
    ensures
        view_entries(entries).len() == entries.len(),
        forall|i: int|
            0 <= i < entries.len() ==> #[trigger] view_entries(entries)[i] == (
                entries[i].0@,
                entries[i].1@,
            ),
    decreases entries.len(),
{
    if entries.len() > 0 {
        let tail = entries.subrange(1, entries.len() as int);
        lemma_view_entries_index(tail);
        assert(view_entries(entries) == seq![(entries[0].0@, entries[0].1@)] + view_entries(tail));
        assert forall|i: int| 0 <= i < entries.len() implies #[trigger] view_entries(entries)[i]
            == (entries[i].0@, entries[i].1@) by {
            if i > 0 {
                assert(tail[i - 1] == entries[i]);
            }
        }
    }
}

/// Where the exec insertion loop stops, `dict_insert` puts the entry.
proof fn lemma_dict_insert_at(
    entries: Seq<(Seq<u8>, BValue)>,
    key: Seq<u8>,
    value: BValue,
    i: int,
)
    requires
        0 <= i <= entries.len(),
        forall|j: int| 0 <= j < i ==> #[trigger] bytes_lt(entries[j].0, key),
        i < entries.len() ==> !bytes_lt(entries[i].0, key),
    ensures
        dict_insert(entries, key, value) == if i < entries.len() && entries[i].0 == key {
            entries.update(i, (key, value))
        } else {
            entries.insert(i, (key, value))
        },
    decreases i,
{
    if entries.len() == 0 {
        assert(dict_insert(entries, key, value) =~= entries.insert(i, (key, value)));
    } else if i == 0 {
        lemma_bytes_lt_total(entries[0].0, key);
        if entries[0].0 == key {
            assert(dict_insert(entries, key, value) =~= entries.update(0, (key, value)));
        } else {
            assert(dict_insert(entries, key, value) =~= entries.insert(0, (key, value)));
        }
    } else {
        assert(bytes_lt(entries[0].0, key));
        lemma_bytes_lt_total(entries[0].0, key);
        lemma_bytes_lt_irreflexive(key);
        let tail = entries.subrange(1, entries.len() as int);
        assert forall|j: int| 0 <= j < i - 1 implies #[trigger] bytes_lt(tail[j].0, key) by {
            assert(tail[j] == entries[j + 1]);
        }
        lemma_dict_insert_at(tail, key, value, i - 1);
        if i < entries.len() && entries[i].0 == key {
            assert(dict_insert(entries, key, value) =~= entries.update(i, (key, value)));
        } else {
            assert(dict_insert(entries, key, value) =~= entries.insert(i, (key, value)));
        }
    }
}

/// Inserting keeps the keys sorted.
pub proof fn lemma_dict_insert_sorted(entries: Seq<(Seq<u8>, BValue)>, key: Seq<u8>, value: BValue)
    requires
        keys_sorted(entries),
    ensures
        keys_sorted(dict_insert(entries, key, value)),
        forall|k: Seq<u8>|
            #![trigger dict_lookup(dict_insert(entries, key, value), k)]
            dict_lookup(dict_insert(entries, key, value), k) == if k == key {
                Some(value)
            } else {
                dict_lookup(entries, k)
            },
    decreases entries.len(),
{
    let r = dict_insert(entries, key, value);
    if entries.len() == 0 {
        assert forall|k: Seq<u8>| #[trigger] dict_lookup(r, k) == if k == key {
            Some(value)
        } else {
            dict_lookup(entries, k)
        } by {
            assert(r.subrange(1, r.len() as int) =~= entries);
        }
    } else {
        let tail = entries.subrange(1, entries.len() as int);
        lemma_bytes_lt_total(entries[0].0, key);
        assert(keys_sorted(tail)) by {
            assert forall|i: int, j: int| 0 <= i < j < tail.len() implies #[trigger] bytes_lt(
                tail[i].0,
                tail[j].0,
            ) by {
                assert(tail[i] == entries[i + 1] && tail[j] == entries[j + 1]);
            }
        }
        if entries[0].0 == key {
            assert forall|i: int, j: int| 0 <= i < j < r.len() implies #[trigger] bytes_lt(
                r[i].0,
                r[j].0,
            ) by {
                assert(r[i].0 == entries[i].0 && r[j].0 == entries[j].0);
            }
            assert forall|k: Seq<u8>| #[trigger] dict_lookup(r, k) == if k == key {
                Some(value)
            } else {
                dict_lookup(entries, k)
            } by {
                assert(r.subrange(1, r.len() as int) =~= tail);
            }
        } else if bytes_lt(key, entries[0].0) {
            assert forall|i: int, j: int| 0 <= i < j < r.len() implies #[trigger] bytes_lt(
                r[i].0,
                r[j].0,
            ) by {
                if i == 0 {
                    if j > 1 {
                        assert(bytes_lt(entries[0].0, entries[j - 1].0));
                        lemma_bytes_lt_transitive(key, entries[0].0, entries[j - 1].0);
                    }
                } else {
                    assert(r[i] == entries[i - 1] && r[j] == entries[j - 1]);
                }
            }
            assert forall|k: Seq<u8>| #[trigger] dict_lookup(r, k) == if k == key {
                Some(value)
            } else {
                dict_lookup(entries, k)
            } by {
                assert(r.subrange(1, r.len() as int) =~= entries);
            }
        } else {
            lemma_dict_insert_sorted(tail, key, value);
            let rt = dict_insert(tail, key, value);
            assert(r == seq![entries[0]] + rt);
            assert forall|i: int, j: int| 0 <= i < j < r.len() implies #[trigger] bytes_lt(
                r[i].0,
                r[j].0,
            ) by {
                if i == 0 {
                    assert(r[j] == rt[j - 1]);
                    if rt[j - 1].0 == key {
                        assert(bytes_lt(entries[0].0, key));
                    } else {
                        // every key of the tail comes after the first entry's key
                        lemma_dict_insert_keys(tail, key, value, j - 1);
                        let m = choose|m: int|
                            0 <= m < tail.len() && tail[m].0 == rt[j - 1].0;
                        assert(tail[m] == entries[m + 1]);
                    }
                } else {
                    assert(r[i] == rt[i - 1] && r[j] == rt[j - 1]);
                }
            }
            assert forall|k: Seq<u8>| #[trigger] dict_lookup(r, k) == if k == key {
                Some(value)
            } else {
                dict_lookup(entries, k)
            } by {
                assert(r.subrange(1, r.len() as int) =~= rt);
                assert(r[0] == entries[0]);
                assert(dict_lookup(dict_insert(tail, key, value), k) == if k == key {
                    Some(value)
                } else {
                    dict_lookup(tail, k)
                });
            }
        }
    }
}

/// Every key of `dict_insert(entries, key, value)` is `key` or a key of `entries`.
proof fn lemma_dict_insert_keys(
    entries: Seq<(Seq<u8>, BValue)>,
    key: Seq<u8>,
    value: BValue,
    i: int,
)
    requires
        0 <= i < dict_insert(entries, key, value).len(),
    ensures
        dict_insert(entries, key, value)[i].0 == key || exists|m: int|
            0 <= m < entries.len() && entries[m].0 == dict_insert(entries, key, value)[i].0,
    decreases entries.len(),
{
    let r = dict_insert(entries, key, value);
    if entries.len() > 0 {
        let tail = entries.subrange(1, entries.len() as int);
        if entries[0].0 == key {
            if i > 0 {
                assert(r[i] == entries[i]);
            }
        } else if bytes_lt(key, entries[0].0) {
            if i > 0 {
                assert(r[i] == entries[i - 1]);
            }
        } else {
            if i == 0 {
                assert(r[0] == entries[0]);
            } else {
                lemma_dict_insert_keys(tail, key, value, i - 1);
                assert(r[i] == dict_insert(tail, key, value)[i - 1]);
                if r[i].0 != key {
                    let m = choose|m: int| 0 <= m < tail.len() && tail[m].0 == r[i].0;
                    assert(tail[m] == entries[m + 1]);
                }
            }
        }
    }
}

impl BencodeMap {
    /// Every map holds its keys in strictly ascending byte order.
    #[verifier::type_invariant]
    spec fn keys_ascending(&self) -> bool {
        keys_sorted(self@)
    }

    /// An empty dictionary.
    pub fn new() -> (r: Self)
        ensures
            r@ == Seq::<(Seq<u8>, BValue)>::empty(),
    {
        let r = BencodeMap { entries: Vec::new() };
        assert(r@ =~= Seq::<(Seq<u8>, BValue)>::empty());
        r
    }

    /// The number of entries.
    pub fn len(&self) -> (r: usize)
        ensures
            r == self@.len(),
    {
        proof {
            lemma_view_entries_index(self.entries@);
        }
        self.entries.len()
    }

    /// Stores `value` under `key`, replacing what was there.
    pub fn insert(&mut self, key: Vec<u8>, value: BencodeType)
        ensures
            final(self)@ == dict_insert(old(self)@, key@, value@),
    {
        proof {
            use_type_invariant(&*self);
        }
        let ghost view0 = self@;
        let mut entries: Vec<(Vec<u8>, BencodeType)> = Vec::new();
        core::mem::swap(&mut entries, &mut self.entries);
        proof {
            lemma_view_entries_index(entries@);
        }
        assert(view_entries(entries@) == view0);
        let mut i: usize = 0;
        while i < entries.len() && bytes_less(entries[i].0.as_slice(), key.as_slice())
            invariant
                i <= entries.len(),
                view0 == view_entries(entries@),
                view0.len() == entries@.len(),
                forall|j: int|
                    0 <= j < entries@.len() ==> #[trigger] view0[j] == (
                        entries@[j].0@,
                        entries@[j].1@,
                    ),
                forall|j: int| 0 <= j < i ==> #[trigger] bytes_lt(view0[j].0, key@),
            decreases entries.len() - i,
        {
            i += 1;
        }
        proof {
            lemma_dict_insert_at(view0, key@, value@, i as int);
            lemma_dict_insert_sorted(view0, key@, value@);
        }
        let ghost kv = key@;
        let ghost vv = value@;
        if i < entries.len() && bytes_equal(entries[i].0.as_slice(), key.as_slice()) {
            entries.set(i, (key, value));
            proof {
                lemma_view_entries_index(entries@);
                assert(view_entries(entries@) =~= view0.update(i as int, (kv, vv)));
            }
        } else {
            entries.insert(i, (key, value));
            proof {
                lemma_view_entries_index(entries@);
                assert(view_entries(entries@) =~= view0.insert(i as int, (kv, vv)));
            }
        }
        self.entries = entries;
    }

    /// The value stored under `key`.
    pub fn get(&self, key: &[u8]) -> (r: Option<&BencodeType>)
        ensures
            match r {
                Some(v) => dict_lookup(self@, key@) == Some(v@),
                None => dict_lookup(self@, key@) is None,
            },
    {
        proof {
            lemma_view_entries_index(self.entries@);
        }
        let ghost es = self@;
        assert(es.subrange(0, es.len() as int) =~= es);
        let mut i: usize = 0;
        while i < self.entries.len()
            invariant
                i <= self.entries.len(),
                es == self@,
                es.len() == self.entries@.len(),
                forall|j: int|
                    0 <= j < self.entries@.len() ==> #[trigger] es[j] == (
                        self.entries@[j].0@,
                        self.entries@[j].1@,
                    ),
                dict_lookup(es, key@) == dict_lookup(es.subrange(i as int, es.len() as int), key@),
            decreases self.entries.len() - i,
        {
            let ghost rest = es.subrange(i as int, es.len() as int);
            assert(rest[0] == es[i as int]);
            if bytes_equal(self.entries[i].0.as_slice(), key) {
                return Some(&self.entries[i].1);
            }
            assert(rest.subrange(1, rest.len() as int) =~= es.subrange(i + 1, es.len() as int));
            i += 1;
        }
        None
    }

    /// The keys, in ascending order.
    pub fn keys(&self) -> (r: Vec<Vec<u8>>)
        ensures
            r@.len() == self@.len(),
            forall|i: int| 0 <= i < r@.len() ==> #[trigger] r@[i]@ == self@[i].0,
    {
        proof {
            lemma_view_entries_index(self.entries@);
        }
        let mut r: Vec<Vec<u8>> = Vec::new();
        let mut i: usize = 0;
        while i < self.entries.len()
            invariant
                i <= self.entries.len(),
                r@.len() == i,
                self@.len() == self.entries@.len(),
                forall|j: int|
                    0 <= j < self.entries@.len() ==> #[trigger] self@[j] == (
                        self.entries@[j].0@,
                        self.entries@[j].1@,
                    ),
                forall|j: int| 0 <= j < i ==> #[trigger] r@[j]@ == self@[j].0,
            decreases self.entries.len() - i,
        {
            r.push(self.entries[i].0.clone());
            i += 1;
        }
        r
    }
}

pub const ERROR_MISSING_PREFIX: &'static str = "Missing prefix value";
pub const ERROR_MISSING_SUFFIX: &'static str = "Missing suffix value";
pub const ERROR_INVALID_INTEGER: &'static str = "Invalid integer";
pub const ERROR_NON_NUMERIC_CHARACTER: &'static str = "Non-numeric character in integer";
pub const ERROR_NEGATIVE_ZERO: &'static str = "-0 is an invalid integer";
pub const ERROR_NOT_ENOUGH_CHARS: &'static str = "Not enough characters";
pub const ERROR_INVALID_KEY: &'static str = "Invalid key. Keys must be of type String";

/// Why bencode input was rejected.
#[derive(Debug, PartialEq)]
pub enum BencodeParseErr {
    EmptyBencode,
    InvalidBencode(String),
    InvalidIntegerBencode(String),
    InvalidListBencode(String),
    InvalidDictionaryBencode(String),
    InvalidStringBencode(String),
}

/// The reasons the decoder distinguishes; each maps to one `BencodeParseErr` with its message.
#[derive(Debug, PartialEq, Eq, Clone, Copy)]
pub enum DecodeFault {
    /// No value where one was expected.
    Empty,
    /// A value starts with a byte that begins no bencode type.
    UnexpectedByte(u8),
    IntMissingPrefix,
    IntMissingSuffix,
    IntNonNumeric,
    IntNegativeZero,
    IntInvalid,
    StrMissingPrefix,
    StrNonNumeric,
    StrNotEnough,
    ListMissingPrefix,
    ListMissingSuffix,
    DictMissingPrefix,
    DictMissingSuffix,
    DictInvalidKey,
}

/// The decimal text of `n` as characters.
pub open spec fn decimal_chars(n: nat) -> Seq<char> {
    nat_digits(n).map_values(|b: u8| b as char)
}

/// `e` is the error the decoder reports for `f`.
pub open spec fn describes(e: BencodeParseErr, f: DecodeFault) -> bool {
    match f {
        DecodeFault::Empty => e is EmptyBencode,
        DecodeFault::UnexpectedByte(b) => e matches BencodeParseErr::InvalidBencode(m) && m@
            == decimal_chars(b as nat),
        DecodeFault::IntMissingPrefix => e matches BencodeParseErr::InvalidIntegerBencode(m) && m@
            == ERROR_MISSING_PREFIX@,
        DecodeFault::IntMissingSuffix => e matches BencodeParseErr::InvalidIntegerBencode(m) && m@
            == ERROR_MISSING_SUFFIX@,
        DecodeFault::IntNonNumeric => e matches BencodeParseErr::InvalidIntegerBencode(m) && m@
            == ERROR_NON_NUMERIC_CHARACTER@,
        DecodeFault::IntNegativeZero => e matches BencodeParseErr::InvalidIntegerBencode(m) && m@
            == ERROR_NEGATIVE_ZERO@,
        DecodeFault::IntInvalid => e matches BencodeParseErr::InvalidIntegerBencode(m) && m@
            == ERROR_INVALID_INTEGER@,
        DecodeFault::StrMissingPrefix => e matches BencodeParseErr::InvalidStringBencode(m) && m@
            == ERROR_MISSING_PREFIX@,
        DecodeFault::StrNonNumeric => e matches BencodeParseErr::InvalidStringBencode(m) && m@
            == ERROR_NON_NUMERIC_CHARACTER@,
        DecodeFault::StrNotEnough => e matches BencodeParseErr::InvalidStringBencode(m) && m@
            == ERROR_NOT_ENOUGH_CHARS@,
        DecodeFault::ListMissingPrefix => e matches BencodeParseErr::InvalidListBencode(m) && m@
            == ERROR_MISSING_PREFIX@,
        DecodeFault::ListMissingSuffix => e matches BencodeParseErr::InvalidListBencode(m) && m@
            == ERROR_MISSING_SUFFIX@,
        DecodeFault::DictMissingPrefix => e matches BencodeParseErr::InvalidDictionaryBencode(m)
            && m@ == ERROR_MISSING_PREFIX@,
        DecodeFault::DictMissingSuffix => e matches BencodeParseErr::InvalidDictionaryBencode(m)
            && m@ == ERROR_MISSING_SUFFIX@,
        DecodeFault::DictInvalidKey => e matches BencodeParseErr::InvalidDictionaryBencode(m) && m@
            == ERROR_INVALID_KEY@,
    }
}

pub open spec fn all_digits(d: Seq<u8>) -> bool {
    forall|i: int| 0 <= i < d.len() ==> #[trigger] is_digit(d[i])
}

/// The number written by decimal digits (0 for no digits).
pub open spec fn digits_value(d: Seq<u8>) -> nat
    decreases d.len(),
{
    if d.len() == 0 {
        0
    } else {
        digits_value(d.subrange(0, d.len() - 1)) * 10 + (d[d.len() - 1] - 48) as nat
    }
}

/// The integer written by `t`: digits, or a minus sign followed by digits.
pub open spec fn integer_value(t: Seq<u8>) -> Option<int> {
    if t.len() > 0 && all_digits(t) {
        Some(digits_value(t) as int)
    } else if t.len() > 1 && t[0] == MINUS_SIGN && all_digits(t.subrange(1, t.len() as int)) {
        Some(-(digits_value(t.subrange(1, t.len() as int)) as int))
    } else {
        None
    }
}

/// The first position at or after `p` that holds neither a digit nor a minus sign.
pub open spec fn integer_text_end(s: Seq<u8>, p: int) -> int
    decreases s.len() - p,
{
    if p >= s.len() {
        s.len() as int
    } else if is_digit(s[p]) || s[p] == MINUS_SIGN {
        integer_text_end(s, p + 1)
    } else {
        p
    }
}

/// The first position at or after `p` that holds the length delimiter.
pub open spec fn delimiter_at(s: Seq<u8>, p: int) -> int
    decreases s.len() - p,
{
    if p >= s.len() {
        s.len() as int
    } else if s[p] == STRING_DELIMITER {
        p
    } else {
        delimiter_at(s, p + 1)
    }
}

/// `i<integer>e` at `p`: the value and the position after it.
pub open spec fn parse_integer(s: Seq<u8>, p: int) -> Result<(BValue, int), DecodeFault> {
    if p < 0 || p >= s.len() || s[p] != INT_PREFIX {
        Err(DecodeFault::IntMissingPrefix)
    } else {
        let q = integer_text_end(s, p + 1);
        if q >= s.len() {
            Err(DecodeFault::IntMissingSuffix)
        } else if s[q] != VALUE_SUFFIX {
            Err(DecodeFault::IntNonNumeric)
        } else {
            let t = s.subrange(p + 1, q);
            if t == seq![MINUS_SIGN, 48u8] {
                Err(DecodeFault::IntNegativeZero)
            } else {
                match integer_value(t) {
                    Some(x) => if i64::MIN <= x <= i64::MAX {
                        Ok((BValue::Int(x), q + 1))
                    } else {
                        Err(DecodeFault::IntInvalid)
                    },
                    None => Err(DecodeFault::IntInvalid),
                }
            }
        }
    }
}

/// `<len>:<bytes>` at `p`: the bytes and the position after them.
pub open spec fn parse_bytes(s: Seq<u8>, p: int) -> Result<(Seq<u8>, int), DecodeFault> {
    if p < 0 || p >= s.len() || delimiter_at(s, p) == p {
        Err(DecodeFault::StrMissingPrefix)
    } else {
        let c = delimiter_at(s, p);
        let d = s.subrange(p, c);
        let n = digits_value(d);
        if !all_digits(d) || n > usize::MAX {
            Err(DecodeFault::StrNonNumeric)
        } else if c >= s.len() || c + 1 + n > s.len() {
            Err(DecodeFault::StrNotEnough)
        } else {
            Ok((s.subrange(c + 1, c + 1 + n), c + 1 + n))
        }
    }
}

/// The value that starts at `p`, and the position after it.
pub open spec fn parse_value(s: Seq<u8>, p: int) -> Result<(BValue, int), DecodeFault>
    decreases s.len() - p, 0int,
{
    if p < 0 || p >= s.len() {
        Err(DecodeFault::Empty)
    } else if s[p] == INT_PREFIX {
        parse_integer(s, p)
    } else if s[p] == LIST_PREFIX {
        parse_list_items(s, p + 1, Seq::empty())
    } else if s[p] == DICTIONARY_PREFIX {
        parse_dict_items(s, p + 1, Seq::empty())
    } else if is_digit(s[p]) {
        match parse_bytes(s, p) {
            Ok((b, q)) => Ok((BValue::Str(b), q)),
            Err(f) => Err(f),
        }
    } else {
        Err(DecodeFault::UnexpectedByte(s[p]))
    }
}

/// List items from `p` up to the closing suffix, after the items `acc` already read.
/// (A value always occupies at least one byte; the range checks keep the definition total.)
pub open spec fn parse_list_items(s: Seq<u8>, p: int, acc: Seq<BValue>) -> Result<
    (BValue, int),
    DecodeFault,
>
    decreases s.len() - p, 1int,
{
    if p < 0 || p >= s.len() {
        Err(DecodeFault::ListMissingSuffix)
    } else if s[p] == VALUE_SUFFIX {
        Ok((BValue::List(acc), p + 1))
    } else {
        match parse_value(s, p) {
            Err(f) => Err(f),
            Ok((v, q)) => if p < q <= s.len() {
                parse_list_items(s, q, acc.push(v))
            } else {
                Err(DecodeFault::ListMissingSuffix)
            },
        }
    }
}

/// Dictionary entries from `p` up to the closing suffix, inserted into `acc`.
pub open spec fn parse_dict_items(s: Seq<u8>, p: int, acc: Seq<(Seq<u8>, BValue)>) -> Result<
    (BValue, int),
    DecodeFault,
>
    decreases s.len() - p, 1int,
{
    if p < 0 || p >= s.len() {
        Err(DecodeFault::DictMissingSuffix)
    } else if s[p] == VALUE_SUFFIX {
        Ok((BValue::Dict(acc), p + 1))
    } else if !is_digit(s[p]) {
        Err(DecodeFault::DictInvalidKey)
    } else {
        match parse_bytes(s, p) {
            Err(f) => Err(f),
            Ok((k, q)) => if p < q <= s.len() {
                match parse_value(s, q) {
                    Err(f) => Err(f),
                    Ok((v, r)) => if q < r <= s.len() {
                        parse_dict_items(s, r, dict_insert(acc, k, v))
                    } else {
                        Err(DecodeFault::DictMissingSuffix)
                    },
                }
            } else {
                Err(DecodeFault::DictMissingSuffix)
            },
        }
    }
}

/// `l<items>e` at `p`.
pub open spec fn parse_list(s: Seq<u8>, p: int) -> Result<(BValue, int), DecodeFault> {
    if p < 0 || p >= s.len() || s[p] != LIST_PREFIX {
        Err(DecodeFault::ListMissingPrefix)
    } else {
        parse_list_items(s, p + 1, Seq::empty())
    }
}

/// `d<entries>e` at `p`.
pub open spec fn parse_dict(s: Seq<u8>, p: int) -> Result<(BValue, int), DecodeFault> {
    if p < 0 || p >= s.len() || s[p] != DICTIONARY_PREFIX {
        Err(DecodeFault::DictMissingPrefix)
    } else {
        parse_dict_items(s, p + 1, Seq::empty())
    }
}

/// The values that follow one another from `p` to the end of the input, after `acc`.
pub open spec fn decode_values(s: Seq<u8>, p: int, acc: Seq<BValue>) -> Result<
    Seq<BValue>,
    DecodeFault,
>
    decreases s.len() - p,
{
    if p < 0 || p >= s.len() {
        Ok(acc)
    } else {
        match parse_value(s, p) {
            Err(f) => Err(f),
            Ok((v, q)) => if p < q <= s.len() {
                decode_values(s, q, acc.push(v))
            } else {
                Err(DecodeFault::Empty)
            },
        }
    }
}

/// The whole input as a sequence of values.
pub open spec fn decode_spec(s: Seq<u8>) -> Result<Seq<BValue>, DecodeFault> {
    decode_values(s, 0, Seq::empty())
}

/// `r` is the outcome that `spec` describes: the same value and end position, or an error for
/// the same fault.
pub open spec fn value_result(
    r: Result<(BencodeType, usize), BencodeParseErr>,
    spec: Result<(BValue, int), DecodeFault>,
) -> bool {
    match r {
        Ok((v, q)) => spec == Ok::<(BValue, int), DecodeFault>((v@, q as int)),
        Err(e) => spec is Err && describes(e, spec->Err_0),
    }
}

/// Like `value_result`, without the end position.
pub open spec fn value_only_result(
    r: Result<BencodeType, BencodeParseErr>,
    spec: Result<(BValue, int), DecodeFault>,
) -> bool {
    match r {
        Ok(v) => spec is Ok && spec->Ok_0.0 == v@,
        Err(e) => spec is Err && describes(e, spec->Err_0),
    }
}

fn digit_text(d: u8) -> (r: &'static str)
    requires
        d < 10,
    ensures
        r@ == seq![((48 + d) as u8) as char],
{
    if d == 0 {
        proof { reveal_strlit("0"); }
        "0"
    } else if d == 1 {
        proof { reveal_strlit("1"); }
        "1"
    } else if d == 2 {
        proof { reveal_strlit("2"); }
        "2"
    } else if d == 3 {
        proof { reveal_strlit("3"); }
        "3"
    } else if d == 4 {
        proof { reveal_strlit("4"); }
        "4"
    } else if d == 5 {
        proof { reveal_strlit("5"); }
        "5"
    } else if d == 6 {
        proof { reveal_strlit("6"); }
        "6"
    } else if d == 7 {
        proof { reveal_strlit("7"); }
        "7"
    } else if d == 8 {
        proof { reveal_strlit("8"); }
        "8"
    } else {
        proof { reveal_strlit("9"); }
        "9"
    }
}

/// The decimal text of a byte value.
fn decimal_string(n: u8) -> (r: String)
    ensures
        r@ == decimal_chars(n as nat),
{
    let mut r = String::new();
    if n >= 100 {
        r.append(digit_text(n / 100));
    }
    if n >= 10 {
        r.append(digit_text((n / 10) % 10));
    }
    r.append(digit_text(n % 10));
    proof {
        reveal_with_fuel(nat_digits, 3);
        assert(r@ =~= decimal_chars(n as nat));
    }
    r
}

/// The error reported for a fault.
fn fault_error(f: DecodeFault) -> (e: BencodeParseErr)
    ensures
        describes(e, f),
{
    match f {
        DecodeFault::Empty => BencodeParseErr::EmptyBencode,
        DecodeFault::UnexpectedByte(b) => BencodeParseErr::InvalidBencode(decimal_string(b)),
        DecodeFault::IntMissingPrefix => BencodeParseErr::InvalidIntegerBencode(
            ERROR_MISSING_PREFIX.to_owned(),
        ),
        DecodeFault::IntMissingSuffix => BencodeParseErr::InvalidIntegerBencode(
            ERROR_MISSING_SUFFIX.to_owned(),
        ),
        DecodeFault::IntNonNumeric => BencodeParseErr::InvalidIntegerBencode(
            ERROR_NON_NUMERIC_CHARACTER.to_owned(),
        ),
        DecodeFault::IntNegativeZero => BencodeParseErr::InvalidIntegerBencode(
            ERROR_NEGATIVE_ZERO.to_owned(),
        ),
        DecodeFault::IntInvalid => BencodeParseErr::InvalidIntegerBencode(
            ERROR_INVALID_INTEGER.to_owned(),
        ),
        DecodeFault::StrMissingPrefix => BencodeParseErr::InvalidStringBencode(
            ERROR_MISSING_PREFIX.to_owned(),
        ),
        DecodeFault::StrNonNumeric => BencodeParseErr::InvalidStringBencode(
            ERROR_NON_NUMERIC_CHARACTER.to_owned(),
        ),
        DecodeFault::StrNotEnough => BencodeParseErr::InvalidStringBencode(
            ERROR_NOT_ENOUGH_CHARS.to_owned(),
        ),
        DecodeFault::ListMissingPrefix => BencodeParseErr::InvalidListBencode(
            ERROR_MISSING_PREFIX.to_owned(),
        ),
        DecodeFault::ListMissingSuffix => BencodeParseErr::InvalidListBencode(
            ERROR_MISSING_SUFFIX.to_owned(),
        ),
        DecodeFault::DictMissingPrefix => BencodeParseErr::InvalidDictionaryBencode(
            ERROR_MISSING_PREFIX.to_owned(),
        ),
        DecodeFault::DictMissingSuffix => BencodeParseErr::InvalidDictionaryBencode(
            ERROR_MISSING_SUFFIX.to_owned(),
        ),
        DecodeFault::DictInvalidKey => BencodeParseErr::InvalidDictionaryBencode(
            ERROR_INVALID_KEY.to_owned(),
        ),
    }
}

proof fn lemma_digits_value_step(d: Seq<u8>, k: int)
    requires
        0 <= k < d.len(),
    ensures
        digits_value(d.subrange(0, k + 1)) == digits_value(d.subrange(0, k)) * 10 + (d[k] - 48) as nat,
{
    assert(d.subrange(0, k + 1).subrange(0, k) =~= d.subrange(0, k));
}

proof fn lemma_digits_value_monotone(d: Seq<u8>, i: int, j: int)
    requires
        0 <= i <= j <= d.len(),
        all_digits(d.subrange(0, j)),
    ensures
        digits_value(d.subrange(0, i)) <= digits_value(d.subrange(0, j)),
    decreases j - i,
{
    if i < j {
        lemma_digits_value_monotone(d, i, j - 1);
        lemma_digits_value_step(d, j - 1);
        assert(is_digit(d.subrange(0, j)[j - 1]));
        assert(all_digits(d.subrange(0, j - 1))) by {
            assert forall|k: int| 0 <= k < j - 1 implies #[trigger] is_digit(d.subrange(0, j - 1)[k]) by {
                assert(d.subrange(0, j - 1)[k] == d.subrange(0, j)[k]);
            }
        }
    }
}

/// The number written by `data[from..to]`, when it is all digits, not empty, and at most `limit`.
fn parse_digits(data: &[u8], from: usize, to: usize, limit: u64) -> (r: Option<u64>)
    requires
        from <= to <= data.len(),
    ensures
        r == (if from < to && all_digits(data@.subrange(from as int, to as int)) && digits_value(
            data@.subrange(from as int, to as int),
        ) <= limit {
            Some(digits_value(data@.subrange(from as int, to as int)) as u64)
        } else {
            None::<u64>
        }),
{
    let ghost t = data@.subrange(from as int, to as int);
    if from == to {
        return None;
    }
    let mut acc: u64 = 0;
    let mut i: usize = from;
    assert(t.subrange(0, 0) =~= Seq::<u8>::empty());
    while i < to
        invariant
            from <= i <= to <= data.len(),
            t == data@.subrange(from as int, to as int),
            all_digits(t.subrange(0, i - from)),
            acc as nat == digits_value(t.subrange(0, i - from)),
            acc <= limit,
        decreases to - i,
    {
        let b = data[i];
        assert(b == t[i - from]);
        if b < 48 || b > 57 {
            assert(!is_digit(t[i - from]));
            return None;
        }
        let d = (b - 48) as u64;
        proof {
            lemma_digits_value_step(t, i - from);
        }
        if d > limit || acc > (limit - d) / 10 {
            proof {
                assert(acc * 10 + d > limit) by (nonlinear_arith)
                    requires
                        d > limit || acc > (limit - d) / 10,
                        d < 10,
                ;
                if all_digits(t) {
                    assert(all_digits(t.subrange(0, t.len() as int))) by {
                        assert(t.subrange(0, t.len() as int) =~= t);
                    }
                    lemma_digits_value_monotone(t, i - from + 1, t.len() as int);
                    assert(t.subrange(0, t.len() as int) =~= t);
                }
            }
            return None;
        }
        proof {
            assert(acc * 10 + d <= limit) by (nonlinear_arith)
                requires
                    d <= limit,
                    acc <= (limit - d) / 10,
                    d < 10,
            ;
            assert forall|k: int| 0 <= k < i - from + 1 implies #[trigger] is_digit(
                t.subrange(0, i - from + 1)[k],
            ) by {
                if k < i - from {
                    assert(t.subrange(0, i - from + 1)[k] == t.subrange(0, i - from)[k]);
                }
            }
        }
        acc = acc * 10 + d;
        i += 1;
    }
    assert(t.subrange(0, t.len() as int) =~= t);
    Some(acc)
}

/// The integer written by `data[from..to]`, when it is well formed and fits in an `i64`.
fn parse_integer_text(data: &[u8], from: usize, to: usize) -> (r: Option<i64>)
    requires
        from <= to <= data.len(),
    ensures
        match r {
            Some(x) => integer_value(data@.subrange(from as int, to as int)) == Some(x as int),
            None => match integer_value(data@.subrange(from as int, to as int)) {
                Some(x) => !(i64::MIN <= x <= i64::MAX),
                None => true,
            },
        },
{
    let ghost t = data@.subrange(from as int, to as int);
    if from < to && data[from] == MINUS_SIGN {
        assert(t[0] == MINUS_SIGN);
        assert(!all_digits(t)) by {
            assert(!is_digit(t[0]));
        }
        let ghost rest = t.subrange(1, t.len() as int);
        assert(rest =~= data@.subrange(from + 1, to as int));
        match parse_digits(data, from + 1, to, 9223372036854775808u64) {
            None => None,
            Some(m) => {
                if m == 9223372036854775808u64 {
                    Some(i64::MIN)
                } else {
                    Some(-(m as i64))
                }
            },
        }
    } else {
        match parse_digits(data, from, to, 9223372036854775807u64) {
            None => None,
            Some(m) => Some(m as i64),
        }
    }
}

/// Reads `i<integer>e` at `pos`.
fn parse_integer_at(data: &[u8], pos: usize) -> (r: Result<(BencodeType, usize), BencodeParseErr>)
    ensures
        value_result(r, parse_integer(data@, pos as int)),
        r matches Ok((_, q)) ==> pos < q <= data.len(),
{
    let ghost s = data@;
    if pos >= data.len() || data[pos] != INT_PREFIX {
        return Err(fault_error(DecodeFault::IntMissingPrefix));
    }
    let mut q: usize = pos + 1;
    while q < data.len() && ((48 <= data[q] && data[q] <= 57) || data[q] == MINUS_SIGN)
        invariant
            pos + 1 <= q <= data.len(),
            s == data@,
            integer_text_end(s, pos + 1) == integer_text_end(s, q as int),
        decreases data.len() - q,
    {
        q += 1;
    }
    if q >= data.len() {
        return Err(fault_error(DecodeFault::IntMissingSuffix));
    }
    if data[q] != VALUE_SUFFIX {
        return Err(fault_error(DecodeFault::IntNonNumeric));
    }
    let ghost t = s.subrange(pos + 1, q as int);
    if q - pos == 3 && data[pos + 1] == MINUS_SIGN && data[pos + 2] == 48 {
        assert(t =~= seq![MINUS_SIGN, 48u8]);
        return Err(fault_error(DecodeFault::IntNegativeZero));
    }
    assert(t != seq![MINUS_SIGN, 48u8]) by {
        if t == seq![MINUS_SIGN, 48u8] {
            assert(t.len() == 2 && t[0] == data[pos + 1] && t[1] == data[pos + 2]);
        }
    }
    match parse_integer_text(data, pos + 1, q) {
        Some(x) => Ok((BencodeType::Integer(x), q + 1)),
        None => Err(fault_error(DecodeFault::IntInvalid)),
    }
}

/// Reads `<len>:<bytes>` at `pos`.
fn parse_bytes_at(data: &[u8], pos: usize) -> (r: Result<(Vec<u8>, usize), BencodeParseErr>)
    ensures
        match r {
            Ok((b, q)) => parse_bytes(data@, pos as int) == Ok::<(Seq<u8>, int), DecodeFault>(
                (b@, q as int),
            ) && pos < q <= data.len(),
            Err(e) => parse_bytes(data@, pos as int) is Err && describes(
                e,
                parse_bytes(data@, pos as int)->Err_0,
            ),
        },
{
    let ghost s = data@;
    if pos >= data.len() {
        return Err(fault_error(DecodeFault::StrMissingPrefix));
    }
    let mut c: usize = pos;
    while c < data.len() && data[c] != STRING_DELIMITER
        invariant
            pos <= c <= data.len(),
            s == data@,
            delimiter_at(s, pos as int) == delimiter_at(s, c as int),
        decreases data.len() - c,
    {
        c += 1;
    }
    assert(delimiter_at(s, c as int) == c);
    if c == pos {
        return Err(fault_error(DecodeFault::StrMissingPrefix));
    }
    let n = match parse_digits(data, pos, c, usize::MAX as u64) {
        None => {
            return Err(fault_error(DecodeFault::StrNonNumeric));
        },
        Some(n) => n as usize,
    };
    if c >= data.len() || n > data.len() - (c + 1) {
        return Err(fault_error(DecodeFault::StrNotEnough));
    }
    let end = c + 1 + n;
    let mut out: Vec<u8> = Vec::new();
    push_bytes(&mut out, &data[c + 1..end]);
    assert(out@ =~= s.subrange(c + 1, end as int));
    Ok((out, end))
}

/// Reads the value that starts at `pos`.
fn parse_value_at(data: &[u8], pos: usize) -> (r: Result<(BencodeType, usize), BencodeParseErr>)
    ensures
        value_result(r, parse_value(data@, pos as int)),
        r matches Ok((_, q)) ==> pos < q <= data.len(),
    decreases data.len() - pos, 0usize,
{
    if pos >= data.len() {
        return Err(fault_error(DecodeFault::Empty));
    }
    let c = data[pos];
    if c == INT_PREFIX {
        parse_integer_at(data, pos)
    } else if c == LIST_PREFIX {
        parse_list_items_at(data, pos + 1)
    } else if c == DICTIONARY_PREFIX {
        parse_dict_items_at(data, pos + 1)
    } else if 48 <= c && c <= 57 {
        match parse_bytes_at(data, pos) {
            Ok((b, q)) => Ok((BencodeType::String(b), q)),
            Err(e) => Err(e),
        }
    } else {
        Err(fault_error(DecodeFault::UnexpectedByte(c)))
    }
}

/// Reads list items from `pos` through the closing suffix.
fn parse_list_items_at(data: &[u8], pos: usize) -> (r: Result<(BencodeType, usize), BencodeParseErr>)
    requires
        0 < pos <= data.len(),
    ensures
        value_result(r, parse_list_items(data@, pos as int, Seq::empty())),
        r matches Ok((_, q)) ==> pos < q <= data.len(),
    decreases data.len() - pos, 1usize,
{
    let ghost s = data@;
    let mut items: Vec<BencodeType> = Vec::new();
    let mut p: usize = pos;
    assert(view_list(items@) =~= Seq::<BValue>::empty());
    loop
        invariant
            pos <= p <= data.len(),
            s == data@,
            parse_list_items(s, pos as int, Seq::empty()) == parse_list_items(
                s,
                p as int,
                view_list(items@),
            ),
        decreases data.len() - p,
    {
        if p >= data.len() {
            return Err(fault_error(DecodeFault::ListMissingSuffix));
        }
        if data[p] == VALUE_SUFFIX {
            return Ok((BencodeType::List(items), p + 1));
        }
        match parse_value_at(data, p) {
            Err(e) => {
                return Err(e);
            },
            Ok((v, q)) => {
                proof {
                    lemma_view_list_push(items@, v);
                }
                items.push(v);
                p = q;
            },
        }
    }
}

/// Reads dictionary entries from `pos` through the closing suffix.
fn parse_dict_items_at(data: &[u8], pos: usize) -> (r: Result<(BencodeType, usize), BencodeParseErr>)
    requires
        0 < pos <= data.len(),
    ensures
        value_result(r, parse_dict_items(data@, pos as int, Seq::empty())),
        r matches Ok((_, q)) ==> pos < q <= data.len(),
    decreases data.len() - pos, 1usize,
{
    let ghost s = data@;
    let mut map = BencodeMap::new();
    let mut p: usize = pos;
    loop
        invariant
            pos <= p <= data.len(),
            s == data@,
            parse_dict_items(s, pos as int, Seq::empty()) == parse_dict_items(s, p as int, map@),
        decreases data.len() - p,
    {
        if p >= data.len() {
            return Err(fault_error(DecodeFault::DictMissingSuffix));
        }
        let c = data[p];
        if c == VALUE_SUFFIX {
            return Ok((BencodeType::Dictionary(map), p + 1));
        }
        if c < 48 || c > 57 {
            return Err(fault_error(DecodeFault::DictInvalidKey));
        }
        let (key, q) = match parse_bytes_at(data, p) {
            Err(e) => {
                return Err(e);
            },
            Ok(kq) => kq,
        };
        let (value, r) = match parse_value_at(data, q) {
            Err(e) => {
                return Err(e);
            },
            Ok(vr) => vr,
        };
        map.insert(key, value);
        p = r;
    }
}

/// Decodes every value in the input, one after another.
pub fn decode_to_vec(encoded_value: &[u8]) -> (r: Result<Vec<BencodeType>, BencodeParseErr>)
    ensures
        match r {
            Ok(values) => decode_spec(encoded_value@) == Ok::<Seq<BValue>, DecodeFault>(
                view_list(values@),
            ),
            Err(e) => decode_spec(encoded_value@) is Err && describes(
                e,
                decode_spec(encoded_value@)->Err_0,
            ),
        },
{
    let ghost s = encoded_value@;
    let mut values: Vec<BencodeType> = Vec::new();
    let mut p: usize = 0;
    assert(view_list(values@) =~= Seq::<BValue>::empty());
    while p < encoded_value.len()
        invariant
            p <= encoded_value.len(),
            s == encoded_value@,
            decode_spec(s) == decode_values(s, p as int, view_list(values@)),
        decreases encoded_value.len() - p,
    {
        match parse_value_at(encoded_value, p) {
            Err(e) => {
                return Err(e);
            },
            Ok((v, q)) => {
                proof {
                    lemma_view_list_push(values@, v);
                }
                values.push(v);
                p = q;
            },
        }
    }
    Ok(values)
}

/// Reads an integer `i<integer>e` from the start of `data`.
pub fn read_integer(data: &[u8]) -> (r: Result<BencodeType, BencodeParseErr>)
    ensures
        value_only_result(r, parse_integer(data@, 0)),
{
    match parse_integer_at(data, 0) {
        Ok((v, _)) => Ok(v),
        Err(e) => Err(e),
    }
}

/// Reads a byte string `<len>:<bytes>` from the start of `data`.
pub fn read_string(data: &[u8]) -> (r: Result<BencodeType, BencodeParseErr>)
    ensures
        match r {
            Ok(v) => parse_bytes(data@, 0) is Ok && v@ == BValue::Str(parse_bytes(data@, 0)->Ok_0.0),
            Err(e) => parse_bytes(data@, 0) is Err && describes(e, parse_bytes(data@, 0)->Err_0),
        },
{
    match parse_bytes_at(data, 0) {
        Ok((b, _)) => Ok(BencodeType::String(b)),
        Err(e) => Err(e),
    }
}

/// Reads a list `l<items>e` from the start of `data`.
pub fn read_list(data: &[u8]) -> (r: Result<BencodeType, BencodeParseErr>)
    ensures
        value_only_result(r, parse_list(data@, 0)),
{
    if data.len() == 0 || data[0] != LIST_PREFIX {
        return Err(fault_error(DecodeFault::ListMissingPrefix));
    }
    match parse_list_items_at(data, 1) {
        Ok((v, _)) => Ok(v),
        Err(e) => Err(e),
    }
}

/// Reads a dictionary `d<entries>e` from the start of `data`.
pub fn read_dictionary(data: &[u8]) -> (r: Result<BencodeType, BencodeParseErr>)
    ensures
        value_only_result(r, parse_dict(data@, 0)),
{
    if data.len() == 0 || data[0] != DICTIONARY_PREFIX {
        return Err(fault_error(DecodeFault::DictMissingPrefix));
    }
    match parse_dict_items_at(data, 1) {
        Ok((v, _)) => Ok(v),
        Err(e) => Err(e),
    }
}

/// Why a value could not be read as the requested type.
#[derive(Debug, PartialEq, Eq, Clone, Copy)]
pub enum BencodeGetErr {
    InvalidType,
    InvalidUtf8,
    InvalidConversion,
}

/// Relies on std's `String::from_utf8`: it succeeds exactly on valid UTF-8 and then holds the
/// decoded characters.
#[verifier::external_body]
fn utf8_text(bytes: Vec<u8>) -> (r: Option<String>)
    ensures
        r is Some <==> valid_utf8(bytes@),
        r matches Some(t) ==> t@ == decode_utf8(bytes@),
{
    String::from_utf8(bytes).ok()
}

impl BencodeType {
    /// The bytes of a byte string.
    pub fn get_string(&self) -> (r: Result<Vec<u8>, BencodeGetErr>)
        ensures
            match self@ {
                BValue::Str(b) => r matches Ok(x) && x@ == b,
                _ => r == Err::<Vec<u8>, BencodeGetErr>(BencodeGetErr::InvalidType),
            },
    {
        match self {
            BencodeType::String(x) => Ok(x.clone()),
            _ => Err(BencodeGetErr::InvalidType),
        }
    }

    /// The text of a byte string that holds valid UTF-8.
    pub fn get_utf8_string(&self) -> (r: Result<String, BencodeGetErr>)
        ensures
            match self@ {
                BValue::Str(b) => if valid_utf8(b) {
                    r matches Ok(t) && t@ == decode_utf8(b)
                } else {
                    r == Err::<String, BencodeGetErr>(BencodeGetErr::InvalidUtf8)
                },
                _ => r == Err::<String, BencodeGetErr>(BencodeGetErr::InvalidUtf8),
            },
    {
        match self {
            BencodeType::String(x) => match utf8_text(x.clone()) {
                Some(t) => Ok(t),
                None => Err(BencodeGetErr::InvalidUtf8),
            },
            _ => Err(BencodeGetErr::InvalidUtf8),
        }
    }
}

proof fn lemma_parse_dict_items_is_dict(s: Seq<u8>, p: int, acc: Seq<(Seq<u8>, BValue)>)
    ensures
        parse_dict_items(s, p, acc) matches Ok((v, _)) ==> v is Dict,
    decreases s.len() - p,
{
    if 0 <= p < s.len() && s[p] != VALUE_SUFFIX && is_digit(s[p]) {
        if let Ok((k, q)) = parse_bytes(s, p) {
            if p < q <= s.len() {
                if let Ok((v, r)) = parse_value(s, q) {
                    if q < r <= s.len() {
                        lemma_parse_dict_items_is_dict(s, r, dict_insert(acc, k, v));
                    }
                }
            }
        }
    }
}

/// Decoding a dictionary from bytes.
pub trait BencodeMapDecoder: Sized {
    fn try_decode(bytes: &[u8]) -> Result<Self, BencodeParseErr>;
}

impl BencodeMapDecoder for BencodeMap {
    /// The dictionary at the start of `bytes`.
    fn try_decode(bytes: &[u8]) -> (r: Result<BencodeMap, BencodeParseErr>)
        ensures
            match r {
                Ok(m) => parse_dict(bytes@, 0) matches Ok((v, _)) && v == BValue::Dict(m@),
                Err(e) => parse_dict(bytes@, 0) is Err && describes(e, parse_dict(bytes@, 0)->Err_0),
            },
    {
        proof {
            if bytes@.len() > 0 {
                lemma_parse_dict_items_is_dict(bytes@, 1, Seq::empty());
            }
        }
        match read_dictionary(bytes) {
            Ok(BencodeType::Dictionary(m)) => Ok(m),
            Ok(_) => Err(fault_error(DecodeFault::DictMissingPrefix)),
            Err(e) => Err(e),
        }
    }
}

/// Encoding a dictionary to bytes.
pub trait BencodeMapEncoder {
    fn get_encode(&self) -> Vec<u8>;
}

impl BencodeMapEncoder for BencodeMap {
    /// The canonical encoding of the dictionary.
    fn get_encode(&self) -> (r: Vec<u8>)
        ensures
            r@ == encode_value(BValue::Dict(self@)),
            keys_sorted(self@),
    {
        let mut buf: Vec<u8> = Vec::new();
        buf.push(DICTIONARY_PREFIX);
        self.encode_entries_into(&mut buf);
        buf.push(VALUE_SUFFIX);
        assert(buf@ =~= encode_value(BValue::Dict(self@)));
        buf
    }
}

/// A value the codec can carry: integers in the `i64` range, byte strings whose length fits in a
/// `usize`, and dictionaries whose keys are strictly ascending.
pub open spec fn valid_value(v: BValue) -> bool
    decreases v,
{
    match v {
        BValue::Int(x) => i64::MIN <= x <= i64::MAX,
        BValue::Str(b) => b.len() <= usize::MAX,
        BValue::List(items) => valid_items(items),
        BValue::Dict(entries) => keys_sorted(entries) && valid_entries(entries),
    }
}

/// Every item is a valid value.
pub open spec fn valid_items(items: Seq<BValue>) -> bool
    decreases items,
{
    items.len() == 0 || (valid_value(items[0]) && valid_items(
        items.subrange(1, items.len() as int),
    ))
}

/// Every key fits in a `usize` length and every value is valid.
pub open spec fn valid_entries(entries: Seq<(Seq<u8>, BValue)>) -> bool
    decreases entries,
{
    entries.len() == 0 || (entries[0].0.len() <= usize::MAX && valid_value(entries[0].1)
        && valid_entries(entries.subrange(1, entries.len() as int)))
}

/// `e` stands in `s` from position `p`.
pub open spec fn bytes_at(s: Seq<u8>, p: int, e: Seq<u8>) -> bool {
    0 <= p && p + e.len() <= s.len() && s.subrange(p, p + e.len()) == e
}

proof fn lemma_bytes_at_split(s: Seq<u8>, p: int, a: Seq<u8>, b: Seq<u8>)
    requires
        bytes_at(s, p, a + b),
    ensures
        bytes_at(s, p, a),
        bytes_at(s, p + a.len(), b),
{
    let w = s.subrange(p, p + (a + b).len());
    assert(w == a + b);
    assert(s.subrange(p, p + a.len()) =~= w.subrange(0, a.len() as int));
    assert(w.subrange(0, a.len() as int) =~= a);
    assert(s.subrange(p + a.len(), p + a.len() + b.len()) =~= w.subrange(
        a.len() as int,
        w.len() as int,
    ));
    assert(w.subrange(a.len() as int, w.len() as int) =~= b);
}

proof fn lemma_bytes_at_index(s: Seq<u8>, p: int, e: Seq<u8>, i: int)
    requires
        bytes_at(s, p, e),
        0 <= i < e.len(),
    ensures
        s[p + i] == e[i],
{
    assert(s.subrange(p, p + e.len())[i] == s[p + i]);
}

proof fn lemma_nat_digits(n: nat)
    ensures
        nat_digits(n).len() >= 1,
        all_digits(nat_digits(n)),
        digits_value(nat_digits(n)) == n,
        n >= 1 ==> nat_digits(n) != seq![48u8],
    decreases n,
{
    let d = nat_digits(n);
    if n >= 10 {
        lemma_nat_digits(n / 10);
        let h = nat_digits(n / 10);
        assert(d == h + seq![(48 + n % 10) as u8]);
        assert(d.len() == h.len() + 1);
        assert(d.subrange(0, d.len() - 1) =~= h);
        assert(d[d.len() - 1] == (48 + n % 10) as u8);
        assert(digits_value(d) == digits_value(h) * 10 + (n % 10));
        assert forall|i: int| 0 <= i < d.len() implies #[trigger] is_digit(d[i]) by {
            if i < h.len() {
                assert(d[i] == h[i]);
            }
        }
    } else {
        assert(d.subrange(0, 0) =~= Seq::<u8>::empty());
        assert(digits_value(Seq::<u8>::empty()) == 0);
        assert(digits_value(d) == n);
    }
}

proof fn lemma_integer_text_end(s: Seq<u8>, a: int, b: int)
    requires
        0 <= a <= b < s.len(),
        forall|i: int| a <= i < b ==> is_digit(#[trigger] s[i]) || s[i] == MINUS_SIGN,
        !is_digit(s[b]),
        s[b] != MINUS_SIGN,
    ensures
        integer_text_end(s, a) == b,
    decreases b - a,
{
    if a < b {
        lemma_integer_text_end(s, a + 1, b);
    }
}

proof fn lemma_delimiter_at(s: Seq<u8>, a: int, b: int)
    requires
        0 <= a <= b < s.len(),
        forall|i: int| a <= i < b ==> is_digit(#[trigger] s[i]),
        s[b] == STRING_DELIMITER,
    ensures
        delimiter_at(s, a) == b,
    decreases b - a,
{
    if a < b {
        assert(is_digit(s[a]));
        lemma_delimiter_at(s, a + 1, b);
    }
}

proof fn lemma_parse_encoded_integer(s: Seq<u8>, p: int, x: int)
    requires
        i64::MIN <= x <= i64::MAX,
        bytes_at(s, p, encode_value(BValue::Int(x))),
    ensures
        parse_integer(s, p) == Ok::<(BValue, int), DecodeFault>(
            (BValue::Int(x), p + encode_value(BValue::Int(x)).len()),
        ),
{
    let t = int_text(x);
    let e = encode_value(BValue::Int(x));
    let mag: nat = if x < 0 {
        (-x) as nat
    } else {
        x as nat
    };
    lemma_nat_digits(mag);
    assert(e == seq![INT_PREFIX] + t + seq![VALUE_SUFFIX]);
    lemma_bytes_at_split(s, p, seq![INT_PREFIX] + t, seq![VALUE_SUFFIX]);
    lemma_bytes_at_split(s, p, seq![INT_PREFIX], t);
    lemma_bytes_at_index(s, p, e, 0);
    lemma_bytes_at_index(s, p, e, e.len() - 1);
    let q = p + 1 + t.len();
    assert forall|i: int| p + 1 <= i < q implies is_digit(#[trigger] s[i]) || s[i] == MINUS_SIGN by {
        lemma_bytes_at_index(s, p + 1, t, i - p - 1);
        if x < 0 {
            if i - p - 1 > 0 {
                assert(t[i - p - 1] == nat_digits(mag)[i - p - 2]);
            }
        }
    }
    lemma_integer_text_end(s, p + 1, q);
    assert(s.subrange(p + 1, q) == t);
    if x < 0 {
        assert(t.subrange(1, t.len() as int) =~= nat_digits(mag));
        assert(t != seq![MINUS_SIGN, 48u8]) by {
            if t == seq![MINUS_SIGN, 48u8] {
                assert(nat_digits(mag) =~= seq![48u8]);
            }
        }
        assert(!all_digits(t)) by {
            assert(!is_digit(t[0]));
        }
    } else {
        assert(t != seq![MINUS_SIGN, 48u8]) by {
            assert(is_digit(t[0]));
        }
    }
}

proof fn lemma_parse_encoded_bytes(s: Seq<u8>, p: int, b: Seq<u8>)
    requires
        b.len() <= usize::MAX,
        bytes_at(s, p, encode_bytes(b)),
    ensures
        parse_bytes(s, p) == Ok::<(Seq<u8>, int), DecodeFault>((b, p + encode_bytes(b).len())),
{
    let d = nat_digits(b.len());
    lemma_nat_digits(b.len());
    lemma_bytes_at_split(s, p, d + seq![STRING_DELIMITER], b);
    lemma_bytes_at_split(s, p, d, seq![STRING_DELIMITER]);
    let c = p + d.len();
    assert forall|i: int| p <= i < c implies is_digit(#[trigger] s[i]) by {
        lemma_bytes_at_index(s, p, d, i - p);
    }
    lemma_bytes_at_index(s, c, seq![STRING_DELIMITER], 0);
    lemma_delimiter_at(s, p, c);
    assert(s.subrange(p, c) == d);
    assert(s.subrange(c + 1, c + 1 + b.len()) == b);
}

/// The first byte of an encoding tells its type, and is never the closing suffix.
proof fn lemma_encoding_starts(v: BValue)
    ensures
        encode_value(v).len() >= 1,
        encode_value(v)[0] != VALUE_SUFFIX,
        v is Int ==> encode_value(v)[0] == INT_PREFIX,
        v is List ==> encode_value(v)[0] == LIST_PREFIX,
        v is Dict ==> encode_value(v)[0] == DICTIONARY_PREFIX,
        v is Str ==> is_digit(encode_value(v)[0]),
{
    if let BValue::Str(b) = v {
        lemma_nat_digits(b.len());
        assert(is_digit(nat_digits(b.len())[0]));
        assert(encode_value(v)[0] == nat_digits(b.len())[0]);
    }
}

/// Inserting a key above every present key appends it.
proof fn lemma_dict_insert_last(acc: Seq<(Seq<u8>, BValue)>, key: Seq<u8>, value: BValue)
    requires
        forall|i: int| 0 <= i < acc.len() ==> #[trigger] bytes_lt(acc[i].0, key),
    ensures
        dict_insert(acc, key, value) == acc.push((key, value)),
    decreases acc.len(),
{
    if acc.len() > 0 {
        let tail = acc.subrange(1, acc.len() as int);
        assert(bytes_lt(acc[0].0, key));
        lemma_bytes_lt_irreflexive(key);
        lemma_bytes_lt_total(acc[0].0, key);
        assert forall|i: int| 0 <= i < tail.len() implies #[trigger] bytes_lt(tail[i].0, key) by {
            assert(tail[i] == acc[i + 1]);
        }
        lemma_dict_insert_last(tail, key, value);
        assert(dict_insert(acc, key, value) =~= acc.push((key, value)));
    } else {
        assert(dict_insert(acc, key, value) =~= acc.push((key, value)));
    }
}

proof fn lemma_parse_encoded_value(s: Seq<u8>, p: int, v: BValue)
    requires
        valid_value(v),
        bytes_at(s, p, encode_value(v)),
    ensures
        parse_value(s, p) == Ok::<(BValue, int), DecodeFault>((v, p + encode_value(v).len())),
    decreases v, 1int,
{
    lemma_encoding_starts(v);
    lemma_bytes_at_index(s, p, encode_value(v), 0);
    match v {
        BValue::Int(x) => {
            lemma_parse_encoded_integer(s, p, x);
        },
        BValue::Str(b) => {
            lemma_parse_encoded_bytes(s, p, b);
        },
        BValue::List(items) => {
            let inner = encode_list(items);
            assert(encode_value(v) =~= seq![LIST_PREFIX] + (inner + seq![VALUE_SUFFIX]));
            lemma_bytes_at_split(s, p, seq![LIST_PREFIX], inner + seq![VALUE_SUFFIX]);
            lemma_parse_encoded_list(s, p + 1, items, Seq::empty());
            assert(Seq::<BValue>::empty() + items =~= items);
        },
        BValue::Dict(entries) => {
            let inner = encode_dict(entries);
            assert(encode_value(v) =~= seq![DICTIONARY_PREFIX] + (inner + seq![VALUE_SUFFIX]));
            lemma_bytes_at_split(s, p, seq![DICTIONARY_PREFIX], inner + seq![VALUE_SUFFIX]);
            assert(Seq::<(Seq<u8>, BValue)>::empty() + entries =~= entries);
            lemma_parse_encoded_dict(s, p + 1, entries, Seq::empty());
        },
    }
}

proof fn lemma_parse_encoded_list(s: Seq<u8>, p: int, items: Seq<BValue>, acc: Seq<BValue>)
    requires
        valid_items(items),
        bytes_at(s, p, encode_list(items) + seq![VALUE_SUFFIX]),
    ensures
        parse_list_items(s, p, acc) == Ok::<(BValue, int), DecodeFault>(
            (BValue::List(acc + items), p + encode_list(items).len() + 1),
        ),
    decreases items, 0int,
{
    let e = encode_list(items);
    if items.len() == 0 {
        assert(e.len() == 0);
        lemma_bytes_at_index(s, p, e + seq![VALUE_SUFFIX], 0);
        assert(acc + items =~= acc);
    } else {
        let first = items[0];
        let tail = items.subrange(1, items.len() as int);
        let e0 = encode_value(first);
        assert(e == e0 + encode_list(tail));
        assert(e + seq![VALUE_SUFFIX] =~= e0 + (encode_list(tail) + seq![VALUE_SUFFIX]));
        lemma_bytes_at_split(s, p, e0, encode_list(tail) + seq![VALUE_SUFFIX]);
        lemma_encoding_starts(first);
        lemma_bytes_at_index(s, p, e0, 0);
        lemma_parse_encoded_value(s, p, first);
        lemma_parse_encoded_list(s, p + e0.len(), tail, acc.push(first));
        assert(acc.push(first) + tail =~= acc + items);
    }
}

proof fn lemma_parse_encoded_dict(
    s: Seq<u8>,
    p: int,
    entries: Seq<(Seq<u8>, BValue)>,
    acc: Seq<(Seq<u8>, BValue)>,
)
    requires
        keys_sorted(acc + entries),
        valid_entries(entries),
        bytes_at(s, p, encode_dict(entries) + seq![VALUE_SUFFIX]),
    ensures
        parse_dict_items(s, p, acc) == Ok::<(BValue, int), DecodeFault>(
            (BValue::Dict(acc + entries), p + encode_dict(entries).len() + 1),
        ),
    decreases entries, 0int,
{
    let e = encode_dict(entries);
    if entries.len() == 0 {
        assert(e.len() == 0);
        lemma_bytes_at_index(s, p, e + seq![VALUE_SUFFIX], 0);
        assert(acc + entries =~= acc);
    } else {
        let first = entries[0];
        let tail = entries.subrange(1, entries.len() as int);
        let ek = encode_bytes(first.0);
        let ev = encode_value(first.1);
        assert(e == ek + ev + encode_dict(tail));
        assert(e + seq![VALUE_SUFFIX] =~= ek + (ev + (encode_dict(tail) + seq![VALUE_SUFFIX])));
        lemma_bytes_at_split(s, p, ek, ev + (encode_dict(tail) + seq![VALUE_SUFFIX]));
        lemma_bytes_at_split(s, p + ek.len(), ev, encode_dict(tail) + seq![VALUE_SUFFIX]);
        lemma_nat_digits(first.0.len());
        lemma_bytes_at_index(s, p, ek, 0);
        assert(ek[0] == nat_digits(first.0.len())[0]);
        assert(is_digit(nat_digits(first.0.len())[0]));
        lemma_parse_encoded_bytes(s, p, first.0);
        assert(decreases_to!(entries => entries[0]));
        lemma_parse_encoded_value(s, p + ek.len(), first.1);
        lemma_encoding_starts(first.1);
        let whole = acc + entries;
        assert forall|i: int| 0 <= i < acc.len() implies #[trigger] bytes_lt(acc[i].0, first.0) by {
            assert(whole[i] == acc[i] && whole[acc.len() as int] == first);
        }
        lemma_dict_insert_last(acc, first.0, first.1);
        assert(acc.push(first) + tail =~= acc + entries);
        let q = p + ek.len();
        let r = q + ev.len();
        assert(s[p] != VALUE_SUFFIX && is_digit(s[p]));
        assert(parse_bytes(s, p) == Ok::<(Seq<u8>, int), DecodeFault>((first.0, q)));
        assert(parse_value(s, q) == Ok::<(BValue, int), DecodeFault>((first.1, r)));
        assert(dict_insert(acc, first.0, first.1) == acc.push(first));
        lemma_parse_encoded_dict(s, r, tail, acc.push(first));
        assert(parse_dict_items(s, p, acc) == parse_dict_items(s, r, acc.push(first)));
    }
}

proof fn lemma_valid_items_push(items: Seq<BValue>, v: BValue)
    requires
        valid_items(items),
        valid_value(v),
    ensures
        valid_items(items.push(v)),
    decreases items.len(),
{
    let pushed = items.push(v);
    if items.len() == 0 {
        assert(pushed.subrange(1, 1) =~= Seq::<BValue>::empty());
        assert(valid_items(Seq::<BValue>::empty()));
        assert(pushed[0] == v);
    } else {
        let tail = items.subrange(1, items.len() as int);
        lemma_valid_items_push(tail, v);
        assert(pushed.subrange(1, items.len() + 1int) =~= tail.push(v));
        assert(pushed[0] == items[0]);
    }
}

proof fn lemma_valid_entries_push(entries: Seq<(Seq<u8>, BValue)>, e: (Seq<u8>, BValue))
    requires
        valid_entries(entries),
        e.0.len() <= usize::MAX,
        valid_value(e.1),
    ensures
        valid_entries(entries.push(e)),
    decreases entries.len(),
{
    let pushed = entries.push(e);
    if entries.len() == 0 {
        assert(pushed.subrange(1, 1) =~= Seq::<(Seq<u8>, BValue)>::empty());
        assert(valid_entries(Seq::<(Seq<u8>, BValue)>::empty()));
        assert(pushed[0] == e);
    } else {
        let tail = entries.subrange(1, entries.len() as int);
        lemma_valid_entries_push(tail, e);
        assert(pushed.subrange(1, entries.len() + 1int) =~= tail.push(e));
        assert(pushed[0] == entries[0]);
    }
}

proof fn lemma_valid_entries_insert(entries: Seq<(Seq<u8>, BValue)>, key: Seq<u8>, value: BValue)
    requires
        valid_entries(entries),
        key.len() <= usize::MAX,
        valid_value(value),
    ensures
        valid_entries(dict_insert(entries, key, value)),
    decreases entries.len(),
{
    let r = dict_insert(entries, key, value);
    if entries.len() == 0 {
        assert(r.subrange(1, 1) =~= Seq::<(Seq<u8>, BValue)>::empty());
        assert(valid_entries(Seq::<(Seq<u8>, BValue)>::empty()));
        assert(r[0] == (key, value));
    } else {
        let tail = entries.subrange(1, entries.len() as int);
        if entries[0].0 == key {
            assert(r.subrange(1, r.len() as int) =~= tail);
            assert(r[0] == (key, value));
        } else if bytes_lt(key, entries[0].0) {
            assert(r.subrange(1, r.len() as int) =~= entries);
            assert(r[0] == (key, value));
        } else {
            lemma_valid_entries_insert(tail, key, value);
            assert(r.subrange(1, r.len() as int) =~= dict_insert(tail, key, value));
            assert(r[0] == entries[0]);
        }
    }
}

proof fn lemma_delimiter_at_after(s: Seq<u8>, p: int)
    requires
        0 <= p <= s.len(),
    ensures
        p <= delimiter_at(s, p) <= s.len(),
    decreases s.len() - p,
{
    if p < s.len() && s[p] != STRING_DELIMITER {
        lemma_delimiter_at_after(s, p + 1);
    }
}

proof fn lemma_parse_bytes_fits(s: Seq<u8>, p: int)
    ensures
        parse_bytes(s, p) matches Ok((b, _)) ==> b.len() <= usize::MAX,
{
    if 0 <= p < s.len() {
        lemma_delimiter_at_after(s, p);
    }
}

proof fn lemma_parse_value_valid(s: Seq<u8>, p: int)
    ensures
        parse_value(s, p) matches Ok((v, _)) ==> valid_value(v),
    decreases s.len() - p, 0int,
{
    if 0 <= p < s.len() {
        lemma_parse_bytes_fits(s, p);
        if s[p] == LIST_PREFIX {
            lemma_parse_list_items_valid(s, p + 1, Seq::empty());
        } else if s[p] == DICTIONARY_PREFIX {
            lemma_parse_dict_items_valid(s, p + 1, Seq::empty());
        }
    }
}

proof fn lemma_parse_list_items_valid(s: Seq<u8>, p: int, acc: Seq<BValue>)
    requires
        valid_items(acc),
    ensures
        parse_list_items(s, p, acc) matches Ok((v, _)) ==> valid_value(v),
    decreases s.len() - p, 1int,
{
    if 0 <= p < s.len() && s[p] != VALUE_SUFFIX {
        lemma_parse_value_valid(s, p);
        if let Ok((v, q)) = parse_value(s, p) {
            if p < q <= s.len() {
                lemma_valid_items_push(acc, v);
                lemma_parse_list_items_valid(s, q, acc.push(v));
            }
        }
    }
}

proof fn lemma_parse_dict_items_valid(s: Seq<u8>, p: int, acc: Seq<(Seq<u8>, BValue)>)
    requires
        keys_sorted(acc),
        valid_entries(acc),
    ensures
        parse_dict_items(s, p, acc) matches Ok((v, _)) ==> valid_value(v),
    decreases s.len() - p, 1int,
{
    if 0 <= p < s.len() && s[p] != VALUE_SUFFIX && is_digit(s[p]) {
        lemma_parse_bytes_fits(s, p);
        if let Ok((k, q)) = parse_bytes(s, p) {
            if p < q <= s.len() {
                lemma_parse_value_valid(s, q);
                if let Ok((v, r)) = parse_value(s, q) {
                    if q < r <= s.len() {
                        lemma_dict_insert_sorted(acc, k, v);
                        lemma_valid_entries_insert(acc, k, v);
                        lemma_parse_dict_items_valid(s, r, dict_insert(acc, k, v));
                    }
                }
            }
        }
    }
}

/// Every value the decoder produces is valid: its integers fit in an `i64` and its
/// dictionaries hold strictly ascending keys, so it encodes canonically and decodes back.
pub proof fn lemma_decoded_value_valid(s: Seq<u8>, p: int)
    ensures
        parse_value(s, p) matches Ok((v, _)) ==> valid_value(v) && decode_spec(encode_value(v))
            == Ok::<Seq<BValue>, DecodeFault>(seq![v]),
{
    lemma_parse_value_valid(s, p);
    if let Ok((v, _)) = parse_value(s, p) {
        lemma_decode_encode(v);
    }
}

proof fn lemma_decode_encoded_values(s: Seq<u8>, p: int, items: Seq<BValue>, acc: Seq<BValue>)
    requires
        valid_items(items),
        bytes_at(s, p, encode_list(items)),
        p + encode_list(items).len() == s.len(),
    ensures
        decode_values(s, p, acc) == Ok::<Seq<BValue>, DecodeFault>(acc + items),
    decreases items.len(),
{
    if items.len() == 0 {
        assert(acc + items =~= acc);
    } else {
        let first = items[0];
        let tail = items.subrange(1, items.len() as int);
        let e0 = encode_value(first);
        assert(encode_list(items) == e0 + encode_list(tail));
        lemma_bytes_at_split(s, p, e0, encode_list(tail));
        lemma_encoding_starts(first);
        lemma_parse_encoded_value(s, p, first);
        lemma_decode_encoded_values(s, p + e0.len(), tail, acc.push(first));
        assert(acc.push(first) + tail =~= acc + items);
    }
}

/// Decoding what `encode_vec` writes for valid values gives the same values back.
pub proof fn lemma_decode_encode_all(values: Seq<BValue>)
    requires
        valid_items(values),
    ensures
        decode_spec(encode_all(values)) == Ok::<Seq<BValue>, DecodeFault>(values),
{
    let e = encode_list(values);
    assert(e.subrange(0, e.len() as int) =~= e);
    lemma_decode_encoded_values(e, 0, values, Seq::empty());
    assert(Seq::<BValue>::empty() + values =~= values);
}

/// Decoding the canonical encoding of a valid value gives the value back.
pub proof fn lemma_decode_encode(v: BValue)
    requires
        valid_value(v),
    ensures
        decode_spec(encode_value(v)) == Ok::<Seq<BValue>, DecodeFault>(seq![v]),
{
    let e = encode_value(v);
    assert(e.subrange(0, e.len() as int) =~= e);
    lemma_parse_encoded_value(e, 0, v);
    lemma_encoding_starts(v);
    assert(Seq::<BValue>::empty().push(v) =~= seq![v]);
    assert(decode_values(e, e.len() as int, seq![v]) == Ok::<Seq<BValue>, DecodeFault>(seq![v]));
}

proof fn lemma_lookup_found(entries: Seq<(Seq<u8>, BValue)>, i: int)
    requires
        keys_sorted(entries),
        0 <= i < entries.len(),
    ensures
        dict_lookup(entries, entries[i].0) == Some(entries[i].1),
    decreases i,
{
    if i > 0 {
        let tail = entries.subrange(1, entries.len() as int);
        assert(bytes_lt(entries[0].0, entries[i].0));
        lemma_bytes_lt_irreflexive(entries[i].0);
        assert(keys_sorted(tail)) by {
            assert forall|a: int, b: int| 0 <= a < b < tail.len() implies #[trigger] bytes_lt(
                tail[a].0,
                tail[b].0,
            ) by {
                assert(tail[a] == entries[a + 1] && tail[b] == entries[b + 1]);
            }
        }
        assert(tail[i - 1] == entries[i]);
        lemma_lookup_found(tail, i - 1);
    }
}

proof fn lemma_lookup_some(entries: Seq<(Seq<u8>, BValue)>, k: Seq<u8>)
    requires
        dict_lookup(entries, k) is Some,
    ensures
        exists|i: int|
            0 <= i < entries.len() && entries[i].0 == k && dict_lookup(entries, k) == Some(
                entries[i].1,
            ),
    decreases entries.len(),
{
    if entries[0].0 != k {
        let tail = entries.subrange(1, entries.len() as int);
        lemma_lookup_some(tail, k);
        let i = choose|i: int|
            0 <= i < tail.len() && tail[i].0 == k && dict_lookup(tail, k) == Some(tail[i].1);
        assert(tail[i] == entries[i + 1]);
    }
}

/// Two sorted entry sequences that hold the same value under every key are equal.
proof fn lemma_sorted_lookup_equal(a: Seq<(Seq<u8>, BValue)>, b: Seq<(Seq<u8>, BValue)>)
    requires
        keys_sorted(a),
        keys_sorted(b),
        forall|k: Seq<u8>| #[trigger] dict_lookup(a, k) == dict_lookup(b, k),
    ensures
        a == b,
    decreases a.len() + b.len(),
{
    if a.len() == 0 && b.len() == 0 {
        assert(a =~= b);
    } else if a.len() == 0 {
        lemma_lookup_found(b, 0);
        assert(dict_lookup(a, b[0].0) is None);
    } else if b.len() == 0 {
        lemma_lookup_found(a, 0);
        assert(dict_lookup(b, a[0].0) is None);
    } else {
        lemma_lookup_found(a, 0);
        lemma_lookup_found(b, 0);
        assert(dict_lookup(b, a[0].0) is Some);
        lemma_lookup_some(b, a[0].0);
        let j = choose|j: int|
            0 <= j < b.len() && b[j].0 == a[0].0 && dict_lookup(b, a[0].0) == Some(b[j].1);
        assert(dict_lookup(a, b[0].0) is Some);
        lemma_lookup_some(a, b[0].0);
        let i = choose|i: int|
            0 <= i < a.len() && a[i].0 == b[0].0 && dict_lookup(a, b[0].0) == Some(a[i].1);
        if j > 0 {
            assert(bytes_lt(b[0].0, b[j].0));
            if i > 0 {
                assert(bytes_lt(a[0].0, a[i].0));
                lemma_bytes_lt_total(a[0].0, b[0].0);
            } else {
                lemma_bytes_lt_irreflexive(a[0].0);
            }
        }
        assert(j == 0);
        assert(a[0] == b[0]);
        let ta = a.subrange(1, a.len() as int);
        let tb = b.subrange(1, b.len() as int);
        assert(keys_sorted(ta)) by {
            assert forall|x: int, y: int| 0 <= x < y < ta.len() implies #[trigger] bytes_lt(
                ta[x].0,
                ta[y].0,
            ) by {
                assert(ta[x] == a[x + 1] && ta[y] == a[y + 1]);
            }
        }
        assert(keys_sorted(tb)) by {
            assert forall|x: int, y: int| 0 <= x < y < tb.len() implies #[trigger] bytes_lt(
                tb[x].0,
                tb[y].0,
            ) by {
                assert(tb[x] == b[x + 1] && tb[y] == b[y + 1]);
            }
        }
        assert forall|k: Seq<u8>| #[trigger] dict_lookup(ta, k) == dict_lookup(tb, k) by {
            if k == a[0].0 {
                if dict_lookup(ta, k) is Some {
                    lemma_lookup_some(ta, k);
                    let x = choose|x: int| 0 <= x < ta.len() && ta[x].0 == k && dict_lookup(ta, k) == Some(ta[x].1);
                    assert(ta[x] == a[x + 1]);
                    assert(bytes_lt(a[0].0, a[x + 1].0));
                    lemma_bytes_lt_irreflexive(k);
                }
                if dict_lookup(tb, k) is Some {
                    lemma_lookup_some(tb, k);
                    let x = choose|x: int| 0 <= x < tb.len() && tb[x].0 == k && dict_lookup(tb, k) == Some(tb[x].1);
                    assert(tb[x] == b[x + 1]);
                    assert(bytes_lt(b[0].0, b[x + 1].0));
                    lemma_bytes_lt_irreflexive(k);
                }
            } else {
                assert(dict_lookup(a, k) == dict_lookup(b, k));
            }
        }
        lemma_sorted_lookup_equal(ta, tb);
        assert(a =~= b) by {
            assert forall|x: int| 0 <= x < a.len() implies a[x] == b[x] by {
                if x > 0 {
                    assert(a[x] == ta[x - 1] && b[x] == tb[x - 1]);
                }
            }
        }
    }
}

/// Inserting two different keys into a dictionary gives the same entries in either order, so
/// the canonical encoding does not depend on the order of insertion.
pub proof fn lemma_insert_order_irrelevant(
    entries: Seq<(Seq<u8>, BValue)>,
    k1: Seq<u8>,
    v1: BValue,
    k2: Seq<u8>,
    v2: BValue,
)
    requires
        keys_sorted(entries),
        k1 != k2,
    ensures
        dict_insert(dict_insert(entries, k1, v1), k2, v2) == dict_insert(
            dict_insert(entries, k2, v2),
            k1,
            v1,
        ),
        encode_value(BValue::Dict(dict_insert(dict_insert(entries, k1, v1), k2, v2)))
            == encode_value(BValue::Dict(dict_insert(dict_insert(entries, k2, v2), k1, v1))),
{
    let a1 = dict_insert(entries, k1, v1);
    let b1 = dict_insert(entries, k2, v2);
    lemma_dict_insert_sorted(entries, k1, v1);
    lemma_dict_insert_sorted(entries, k2, v2);
    lemma_dict_insert_sorted(a1, k2, v2);
    lemma_dict_insert_sorted(b1, k1, v1);
    let a = dict_insert(a1, k2, v2);
    let b = dict_insert(b1, k1, v1);
    assert forall|k: Seq<u8>| #[trigger] dict_lookup(a, k) == dict_lookup(b, k) by {
        assert(dict_lookup(a, k) == if k == k2 { Some(v2) } else { dict_lookup(a1, k) });
        assert(dict_lookup(b, k) == if k == k1 { Some(v1) } else { dict_lookup(b1, k) });
        assert(dict_lookup(a1, k) == if k == k1 { Some(v1) } else { dict_lookup(entries, k) });
        assert(dict_lookup(b1, k) == if k == k2 { Some(v2) } else { dict_lookup(entries, k) });
    }
    lemma_sorted_lookup_equal(a, b);
}

pub open spec fn as_int(v: Option<BValue>) -> Option<int> {
    match v {
        Some(BValue::Int(x)) => Some(x),
        _ => None,
    }
}

pub open spec fn as_bytes(v: Option<BValue>) -> Option<Seq<u8>> {
    match v {
        Some(BValue::Str(b)) => Some(b),
        _ => None,
    }
}

/// A byte string that holds valid UTF-8, as text.
pub open spec fn as_text(v: Option<BValue>) -> Option<Seq<char>> {
    match v {
        Some(BValue::Str(b)) => if valid_utf8(b) {
            Some(decode_utf8(b))
        } else {
            None
        },
        _ => None,
    }
}

pub open spec fn as_dict(v: Option<BValue>) -> Option<Seq<(Seq<u8>, BValue)>> {
    match v {
        Some(BValue::Dict(d)) => Some(d),
        _ => None,
    }
}

/// Every item is a byte string holding valid UTF-8.
pub open spec fn text_items(items: Seq<BValue>) -> bool {
    forall|i: int|
        0 <= i < items.len() ==> (#[trigger] items[i] is Str) && valid_utf8(items[i]->Str_0)
}

/// A list of texts.
pub open spec fn as_text_list(v: Option<BValue>) -> Option<Seq<Seq<char>>> {
    match v {
        Some(BValue::List(items)) => if text_items(items) {
            Some(Seq::new(items.len(), |i: int| decode_utf8(items[i]->Str_0)))
        } else {
            None
        },
        _ => None,
    }
}

/// A list of dictionaries.
pub open spec fn as_dict_list(v: Option<BValue>) -> Option<Seq<Seq<(Seq<u8>, BValue)>>> {
    match v {
        Some(BValue::List(items)) => if forall|i: int|
            0 <= i < items.len() ==> #[trigger] items[i] is Dict {
            Some(Seq::new(items.len(), |i: int| items[i]->Dict_0))
        } else {
            None
        },
        _ => None,
    }
}

impl BencodeMap {
    /// The integer under `key`.
    pub fn get_int(&self, key: &[u8]) -> (r: Option<i64>)
        ensures
            r matches Some(x) ==> as_int(dict_lookup(self@, key@)) == Some(x as int),
            r is None ==> as_int(dict_lookup(self@, key@)) is None,
    {
        match self.get(key) {
            Some(BencodeType::Integer(x)) => Some(*x),
            _ => None,
        }
    }

    /// The byte string under `key`.
    pub fn get_bytes(&self, key: &[u8]) -> (r: Option<Vec<u8>>)
        ensures
            r matches Some(b) ==> as_bytes(dict_lookup(self@, key@)) == Some(b@),
            r is None ==> as_bytes(dict_lookup(self@, key@)) is None,
    {
        match self.get(key) {
            Some(BencodeType::String(b)) => Some(b.clone()),
            _ => None,
        }
    }

    /// The text under `key`.
    pub fn get_text(&self, key: &[u8]) -> (r: Option<String>)
        ensures
            r matches Some(t) ==> as_text(dict_lookup(self@, key@)) == Some(t@),
            r is None ==> as_text(dict_lookup(self@, key@)) is None,
    {
        match self.get(key) {
            Some(v) => match v.get_utf8_string() {
                Ok(t) => Some(t),
                Err(_) => None,
            },
            None => None,
        }
    }

    /// The dictionary under `key`.
    pub fn get_dictionary(&self, key: &[u8]) -> (r: Option<BencodeMap>)
        ensures
            r matches Some(m) ==> as_dict(dict_lookup(self@, key@)) == Some(m@),
            r is None ==> as_dict(dict_lookup(self@, key@)) is None,
    {
        match self.get(key) {
            Some(BencodeType::Dictionary(m)) => Some(m.clone()),
            _ => None,
        }
    }

    /// The list of texts under `key`.
    pub fn get_text_list(&self, key: &[u8]) -> (r: Option<Vec<String>>)
        ensures
            r matches Some(ts) ==> (as_text_list(dict_lookup(self@, key@)) matches Some(t) && ts@.len()
                == t.len() && forall|i: int| 0 <= i < t.len() ==> #[trigger] ts@[i]@ == t[i]),
            r is None ==> as_text_list(dict_lookup(self@, key@)) is None,
    {
        let items = match self.get(key) {
            Some(BencodeType::List(items)) => items,
            _ => {
                return None;
            },
        };
        proof {
            lemma_view_list_index(items@);
        }
        let ghost vs = view_list(items@);
        let mut out: Vec<String> = Vec::new();
        let mut i: usize = 0;
        while i < items.len()
            invariant
                i <= items.len(),
                dict_lookup(self@, key@) == Some(BValue::List(vs)),
                vs == view_list(items@),
                vs.len() == items@.len(),
                forall|j: int| 0 <= j < items@.len() ==> #[trigger] vs[j] == items@[j]@,
                out@.len() == i,
                forall|j: int| 0 <= j < i ==> (#[trigger] vs[j] is Str) && valid_utf8(vs[j]->Str_0),
                forall|j: int| 0 <= j < i ==> #[trigger] out@[j]@ == decode_utf8(vs[j]->Str_0),
            decreases items.len() - i,
        {
            match items[i].get_utf8_string() {
                Ok(t) => {
                    out.push(t);
                },
                Err(_) => {
                    assert(vs[i as int] == items@[i as int]@);
                    assert(!((vs[i as int] is Str) && valid_utf8(vs[i as int]->Str_0)));
                    assert(!text_items(vs));
                    return None;
                },
            }
            i += 1;
        }
        Some(out)
    }

    /// The list of dictionaries under `key`.
    pub fn get_dictionary_list(&self, key: &[u8]) -> (r: Option<Vec<BencodeMap>>)
        ensures
            r matches Some(ms) ==> (as_dict_list(dict_lookup(self@, key@)) matches Some(t) && ms@.len()
                == t.len() && forall|i: int| 0 <= i < t.len() ==> #[trigger] ms@[i]@ == t[i]),
            r is None ==> as_dict_list(dict_lookup(self@, key@)) is None,
    {
        let items = match self.get(key) {
            Some(BencodeType::List(items)) => items,
            _ => {
                return None;
            },
        };
        proof {
            lemma_view_list_index(items@);
        }
        let ghost vs = view_list(items@);
        let mut out: Vec<BencodeMap> = Vec::new();
        let mut i: usize = 0;
        while i < items.len()
            invariant
                i <= items.len(),
                dict_lookup(self@, key@) == Some(BValue::List(vs)),
                vs == view_list(items@),
                vs.len() == items@.len(),
                forall|j: int| 0 <= j < items@.len() ==> #[trigger] vs[j] == items@[j]@,
                out@.len() == i,
                forall|j: int| 0 <= j < i ==> #[trigger] vs[j] is Dict,
                forall|j: int| 0 <= j < i ==> #[trigger] out@[j]@ == vs[j]->Dict_0,
            decreases items.len() - i,
        {
            match &items[i] {
                BencodeType::Dictionary(m) => {
                    out.push(m.clone());
                },
                _ => {
                    assert(vs[i as int] == items@[i as int]@);
                    assert(!(vs[i as int] is Dict));
                    return None;
                },
            }
            i += 1;
        }
        Some(out)
    }
}

} // verus!
