use vstd::prelude::*;
use vstd::utf8::encode_utf8;

use crate::syntax::{
    ByteString, DataItem, FloatWidth, IntegerWidth, Simple, SpecBytes, SpecItem, SpecText, Tag,
    TextString, bytestrings_view, items_view, lemma_items_view, lemma_pairs_view, pairs_view,
    textstrings_view,
};

verus! {

/// The smallest width that can hold `value`.
pub open spec fn minimal_width(value: u64) -> IntegerWidth {
    if value <= 23 {
        IntegerWidth::Zero
    } else if value <= 0xff {
        IntegerWidth::Eight
    } else if value <= 0xffff {
        IntegerWidth::Sixteen
    } else if value <= 0xffff_ffff {
        IntegerWidth::ThirtyTwo
    } else {
        IntegerWidth::SixtyFour
    }
}

/// The width used to encode `value` when it was given as `bitwidth`.
pub open spec fn resolved_width(value: u64, bitwidth: IntegerWidth) -> IntegerWidth {
    if bitwidth == IntegerWidth::Unknown {
        minimal_width(value)
    } else {
        bitwidth
    }
}

/// The `n` least significant bytes of `value`, most significant first.
pub open spec fn be_bytes(value: u64, n: nat) -> Seq<u8> {
    Seq::new(n, |i: int| (value >> ((8 * (n - 1 - i)) as u64)) as u8)
}

/// The first byte of a header: the major type in the top three bits.
pub open spec fn initial_byte(major: u8, additional: u8) -> u8 {
    ((major << 5u8) | additional) as u8
}

/// The header of a data item of major type `major` with argument `value`.
pub open spec fn header_bytes(major: u8, value: u64, bitwidth: IntegerWidth) -> Seq<u8> {
    match resolved_width(value, bitwidth) {
        IntegerWidth::Eight => seq![initial_byte(major, 0x18)] + be_bytes(value, 1),
        IntegerWidth::Sixteen => seq![initial_byte(major, 0x19)] + be_bytes(value, 2),
        IntegerWidth::ThirtyTwo => seq![initial_byte(major, 0x1a)] + be_bytes(value, 4),
        IntegerWidth::SixtyFour => seq![initial_byte(major, 0x1b)] + be_bytes(value, 8),
        _ => seq![initial_byte(major, value as u8)],
    }
}

/// The encoding of a definite byte string.
pub open spec fn bytestring_bytes(b: SpecBytes) -> Seq<u8> {
    header_bytes(2, b.data.len() as u64, b.bitwidth) + b.data
}

/// The encoding of a definite text string.
pub open spec fn textstring_bytes(t: SpecText) -> Seq<u8> {
    header_bytes(3, encode_utf8(t.data).len() as u64, t.bitwidth) + encode_utf8(t.data)
}

/// The concatenated encodings of byte string chunks.
pub open spec fn bytestrings_bytes(s: Seq<SpecBytes>) -> Seq<u8>
    decreases s.len(),
{
    if s.len() == 0 {
        Seq::empty()
    } else {
        bytestrings_bytes(s.drop_last()) + bytestring_bytes(s.last())
    }
}

/// The concatenated encodings of text string chunks.
pub open spec fn textstrings_bytes(s: Seq<SpecText>) -> Seq<u8>
    decreases s.len(),
{
    if s.len() == 0 {
        Seq::empty()
    } else {
        textstrings_bytes(s.drop_last()) + textstring_bytes(s.last())
    }
}

/// The encoding of a floating point value given by its bit pattern.
pub open spec fn float_bytes(value: u64, bitwidth: FloatWidth) -> Seq<u8> {
    match bitwidth {
        FloatWidth::Sixteen => seq![0xf9u8] + be_bytes(value, 2),
        FloatWidth::ThirtyTwo => seq![0xfau8] + be_bytes(value, 4),
        _ => seq![0xfbu8] + be_bytes(value, 8),
    }
}

/// The binary encoding of a data item.
pub open spec fn item_bytes(x: SpecItem) -> Seq<u8>
    decreases x,
{
    match x {
        SpecItem::Integer { value, bitwidth } => header_bytes(0, value, bitwidth),
        SpecItem::Negative { value, bitwidth } => header_bytes(1, value, bitwidth),
        SpecItem::ByteString(b) => bytestring_bytes(b),
        SpecItem::TextString(t) => textstring_bytes(t),
        SpecItem::IndefiniteByteString(s) => seq![0x5fu8] + bytestrings_bytes(s) + seq![0xffu8],
        SpecItem::IndefiniteTextString(s) => seq![0x7fu8] + textstrings_bytes(s) + seq![0xffu8],
        SpecItem::Array { data, bitwidth } => match bitwidth {
            Some(w) => header_bytes(4, data.len() as u64, w) + items_bytes(data),
            None => seq![0x9fu8] + items_bytes(data) + seq![0xffu8],
        },
        SpecItem::Mapping { data, bitwidth } => match bitwidth {
            Some(w) => header_bytes(5, data.len() as u64, w) + pairs_bytes(data),
            None => seq![0xbfu8] + pairs_bytes(data) + seq![0xffu8],
        },
        SpecItem::Tag { tag, bitwidth, value } => header_bytes(6, tag, bitwidth) + item_bytes(*value),
        SpecItem::Float { value, bitwidth } => float_bytes(value, bitwidth),
        SpecItem::Simple(v) => header_bytes(7, v as u64, IntegerWidth::Unknown),
    }
}

/// The concatenated encodings of a sequence of data items.
pub open spec fn items_bytes(s: Seq<SpecItem>) -> Seq<u8>
    decreases s,
{
    if s.len() == 0 {
        Seq::empty()
    } else {
        items_bytes(s.drop_last()) + item_bytes(s.last())
    }
}

/// The concatenated encodings of a sequence of key/value pairs.
pub open spec fn pairs_bytes(s: Seq<(SpecItem, SpecItem)>) -> Seq<u8>
    decreases s,
{
    if s.len() == 0 {
        Seq::empty()
    } else {
        pairs_bytes(s.drop_last()) + item_bytes(s.last().0) + item_bytes(s.last().1)
    }
}

/// The initial bytes of the indefinite length forms.
pub proof fn lemma_indefinite_initial_bytes()
    ensures
        initial_byte(2, 0x1f) == 0x5f,
        initial_byte(3, 0x1f) == 0x7f,
        initial_byte(4, 0x1f) == 0x9f,
        initial_byte(5, 0x1f) == 0xbf,
{
    assert(((2u8 << 5u8) | 0x1fu8) as u8 == 0x5f && ((3u8 << 5u8) | 0x1fu8) as u8 == 0x7f
        && ((4u8 << 5u8) | 0x1fu8) as u8 == 0x9f && ((5u8 << 5u8) | 0x1fu8) as u8 == 0xbf) by (bit_vector);
}

fn push_be(bytes: &mut Vec<u8>, value: u64, n: usize)
    requires
        n == 1 || n == 2 || n == 4 || n == 8,
    ensures
        final(bytes)@ == old(bytes)@ + be_bytes(value, n as nat),
{
    let ghost start = bytes@;
    let mut i: usize = 0;
    while i < n
        invariant
            i <= n,
            n <= 8,
            bytes@ == start + be_bytes(value, n as nat).take(i as int),
        decreases n - i,
    {
        let shift: u64 = (8 * (n - 1 - i)) as u64;
        bytes.push((value >> shift) as u8);
        i = i + 1;
        assert(be_bytes(value, n as nat).take(i as int) =~= be_bytes(value, n as nat).take(i - 1).push((value >> shift) as u8));
    }
    assert(be_bytes(value, n as nat).take(n as int) =~= be_bytes(value, n as nat));
}

/// Appends the bytes of `other` to `bytes`.
pub fn append_bytes(bytes: &mut Vec<u8>, other: &[u8])
    ensures
        final(bytes)@ == old(bytes)@ + other@,
{
    let ghost start = bytes@;
    let mut i: usize = 0;
    while i < other.len()
        invariant
            i <= other@.len(),
            bytes@ == start + other@.take(i as int),
        decreases other@.len() - i,
    {
        bytes.push(other[i]);
        i = i + 1;
        assert(other@.take(i as int) =~= other@.take(i - 1).push(other@[i - 1]));
    }
    assert(other@.take(other@.len() as int) =~= other@);
}

/// Appends the header of an item of major type `major` with argument `value`.
pub fn integer_to_bytes(bytes: &mut Vec<u8>, value: u64, bitwidth: IntegerWidth, major: u8)
    ensures
        final(bytes)@ == old(bytes)@ + header_bytes(major, value, bitwidth),
{
    let bitwidth = match bitwidth {
        IntegerWidth::Unknown => {
            if value <= 23 {
                IntegerWidth::Zero
            } else if value <= 0xff {
                IntegerWidth::Eight
            } else if value <= 0xffff {
                IntegerWidth::Sixteen
            } else if value <= 0xffff_ffff {
                IntegerWidth::ThirtyTwo
            } else {
                IntegerWidth::SixtyFour
            }
        },
        w => w,
    };
    match bitwidth {
        IntegerWidth::Eight => {
            bytes.push(major << 5 | 0x18);
            push_be(bytes, value, 1);
        },
        IntegerWidth::Sixteen => {
            bytes.push(major << 5 | 0x19);
            push_be(bytes, value, 2);
        },
        IntegerWidth::ThirtyTwo => {
            bytes.push(major << 5 | 0x1a);
            push_be(bytes, value, 4);
        },
        IntegerWidth::SixtyFour => {
            bytes.push(major << 5 | 0x1b);
            push_be(bytes, value, 8);
        },
        _ => {
            bytes.push(major << 5 | (value as u8));
        },
    }
}

/// Appends the encoding of an unsigned integer.
pub fn positive_to_bytes(bytes: &mut Vec<u8>, value: u64, bitwidth: IntegerWidth)
    ensures
        final(bytes)@ == old(bytes)@ + header_bytes(0, value, bitwidth),
{
    integer_to_bytes(bytes, value, bitwidth, 0);
}

/// Appends the encoding of a negative integer.
pub fn negative_to_bytes(bytes: &mut Vec<u8>, value: u64, bitwidth: IntegerWidth)
    ensures
        final(bytes)@ == old(bytes)@ + header_bytes(1, value, bitwidth),
{
    integer_to_bytes(bytes, value, bitwidth, 1);
}

/// Appends the encoding of a definite byte string.
pub fn definite_bytestring_to_bytes(bytes: &mut Vec<u8>, bytestring: &ByteString)
    ensures
        final(bytes)@ == old(bytes)@ + bytestring_bytes(bytestring@),
{
    integer_to_bytes(bytes, bytestring.data.len() as u64, bytestring.bitwidth, 2);
    append_bytes(bytes, bytestring.data.as_slice());
}

/// Appends the encoding of a definite text string.
pub fn definite_textstring_to_bytes(bytes: &mut Vec<u8>, textstring: &TextString)
    ensures
        final(bytes)@ == old(bytes)@ + textstring_bytes(textstring@),
{
    let data = textstring.data.as_str().as_bytes();
    integer_to_bytes(bytes, data.len() as u64, textstring.bitwidth, 3);
    append_bytes(bytes, data);
}

/// A chunk of an indefinite length string.
pub trait StringChunk: Sized {
    /// The encoding of this chunk as a definite string.
    spec fn chunk_bytes(&self) -> Seq<u8>;

    /// Appends the encoding of this chunk as a definite string.
    fn chunk_to_bytes(&self, bytes: &mut Vec<u8>)
        ensures
            final(bytes)@ == old(bytes)@ + self.chunk_bytes(),
    ;
}

impl StringChunk for ByteString {
    open spec fn chunk_bytes(&self) -> Seq<u8> {
        bytestring_bytes(self@)
    }

    fn chunk_to_bytes(&self, bytes: &mut Vec<u8>) {
        definite_bytestring_to_bytes(bytes, self);
    }
}

impl StringChunk for TextString {
    open spec fn chunk_bytes(&self) -> Seq<u8> {
        textstring_bytes(self@)
    }

    fn chunk_to_bytes(&self, bytes: &mut Vec<u8>) {
        definite_textstring_to_bytes(bytes, self);
    }
}

/// The concatenated encodings of a sequence of string chunks.
pub open spec fn chunks_bytes<T: StringChunk>(s: Seq<T>) -> Seq<u8>
    decreases s.len(),
{
    if s.len() == 0 {
        Seq::empty()
    } else {
        chunks_bytes(s.drop_last()) + s.last().chunk_bytes()
    }
}

/// Appends the encoding of an indefinite length string of major type `major`.
pub fn indefinite_string_to_bytes<T: StringChunk>(bytes: &mut Vec<u8>, major: u8, strings: &[T])
    ensures
        final(bytes)@ == old(bytes)@ + seq![initial_byte(major, 0x1f)] + chunks_bytes(strings@)
            + seq![0xffu8],
{
    bytes.push(major << 5 | 0x1f);
    let ghost start = bytes@;
    let mut i: usize = 0;
    while i < strings.len()
        invariant
            i <= strings@.len(),
            bytes@ == start + chunks_bytes(strings@.take(i as int)),
        decreases strings@.len() - i,
    {
        strings[i].chunk_to_bytes(bytes);
        i = i + 1;
        assert(strings@.take(i as int).drop_last() =~= strings@.take(i - 1));
    }
    assert(strings@.take(strings@.len() as int) =~= strings@);
    bytes.push(0xff);
}


/// Appends the encoding of an array of data items.
pub fn array_to_bytes(bytes: &mut Vec<u8>, array: &[DataItem], bitwidth: Option<IntegerWidth>)
    ensures
        final(bytes)@ == old(bytes)@ + item_bytes(SpecItem::Array { data: items_view(array@), bitwidth }),
    decreases array@, 1nat,
{
    let ghost start = bytes@;
    proof {
        lemma_items_view(array@);
        lemma_indefinite_initial_bytes();
    }
    match bitwidth {
        Some(w) => integer_to_bytes(bytes, array.len() as u64, w, 4),
        None => bytes.push(4 << 5 | 0x1f),
    }
    let ghost head = bytes@;
    let mut i: usize = 0;
    while i < array.len()
        invariant
            i <= array@.len(),
            bytes@ == head + items_bytes(items_view(array@).take(i as int)),
            items_view(array@).len() == array@.len(),
            forall|j: int| 0 <= j < array@.len() ==> #[trigger] items_view(array@)[j] == array@[j].view_item(),
        decreases array@.len() - i,
    {
        item_to_bytes(bytes, &array[i]);
        i = i + 1;
        assert(items_view(array@).take(i as int).drop_last() =~= items_view(array@).take(i - 1));
    }
    assert(items_view(array@).take(array@.len() as int) =~= items_view(array@));
    if bitwidth.is_none() {
        bytes.push(0xff);
    }
    assert(bytes@ =~= start + item_bytes(SpecItem::Array { data: items_view(array@), bitwidth }));
}

/// Appends the encoding of a map of pairs of data items.
pub fn map_to_bytes(bytes: &mut Vec<u8>, values: &[(DataItem, DataItem)], bitwidth: Option<IntegerWidth>)
    ensures
        final(bytes)@ == old(bytes)@ + item_bytes(SpecItem::Mapping { data: pairs_view(values@), bitwidth }),
    decreases values@, 1nat,
{
    let ghost start = bytes@;
    proof {
        lemma_pairs_view(values@);
        lemma_indefinite_initial_bytes();
    }
    match bitwidth {
        Some(w) => integer_to_bytes(bytes, values.len() as u64, w, 5),
        None => bytes.push(5 << 5 | 0x1f),
    }
    let ghost head = bytes@;
    let mut i: usize = 0;
    while i < values.len()
        invariant
            i <= values@.len(),
            bytes@ == head + pairs_bytes(pairs_view(values@).take(i as int)),
            pairs_view(values@).len() == values@.len(),
            forall|j: int| 0 <= j < values@.len() ==> #[trigger] pairs_view(values@)[j] == (values@[j].0.view_item(), values@[j].1.view_item()),
        decreases values@.len() - i,
    {
        let (key, value) = &values[i];
        item_to_bytes(bytes, key);
        item_to_bytes(bytes, value);
        i = i + 1;
        assert(pairs_view(values@).take(i as int).drop_last() =~= pairs_view(values@).take(i - 1));
    }
    assert(pairs_view(values@).take(values@.len() as int) =~= pairs_view(values@));
    if bitwidth.is_none() {
        bytes.push(0xff);
    }
    assert(bytes@ =~= start + item_bytes(SpecItem::Mapping { data: pairs_view(values@), bitwidth }));
}

/// Appends the encoding of a tagged data item.
pub fn tagged_to_bytes(bytes: &mut Vec<u8>, tag: Tag, bitwidth: IntegerWidth, value: &DataItem)
    ensures
        final(bytes)@ == old(bytes)@ + header_bytes(6, tag.0, bitwidth) + item_bytes(value@),
    decreases value, 3nat,
{
    integer_to_bytes(bytes, tag.0, bitwidth, 6);
    item_to_bytes(bytes, value);
}

/// Appends the encoding of a floating point value given by its bit pattern.
pub fn float_to_bytes(bytes: &mut Vec<u8>, value: u64, bitwidth: FloatWidth)
    ensures
        final(bytes)@ == old(bytes)@ + float_bytes(value, bitwidth),
{
    match bitwidth {
        FloatWidth::Sixteen => {
            bytes.push(0xf9);
            push_be(bytes, value, 2);
        },
        FloatWidth::ThirtyTwo => {
            bytes.push(0xfa);
            push_be(bytes, value, 4);
        },
        _ => {
            bytes.push(0xfb);
            push_be(bytes, value, 8);
        },
    }
}

/// Appends the encoding of a simple value.
pub fn simple_to_bytes(bytes: &mut Vec<u8>, simple: Simple)
    ensures
        final(bytes)@ == old(bytes)@ + header_bytes(7, simple.0 as u64, IntegerWidth::Unknown),
{
    integer_to_bytes(bytes, simple.0 as u64, IntegerWidth::Unknown, 7);
}

/// Appends the encoding of a data item.
pub fn item_to_bytes(bytes: &mut Vec<u8>, value: &DataItem)
    ensures
        final(bytes)@ == old(bytes)@ + item_bytes(value@),
    decreases value, 2nat,
{
    proof {
        lemma_indefinite_initial_bytes();
    }
    match value {
        DataItem::Integer { value: v, bitwidth } => positive_to_bytes(bytes, *v, *bitwidth),
        DataItem::Negative { value: v, bitwidth } => negative_to_bytes(bytes, *v, *bitwidth),
        DataItem::ByteString(bytestring) => definite_bytestring_to_bytes(bytes, bytestring),
        DataItem::IndefiniteByteString(bytestrings) => {
            indefinite_string_to_bytes(bytes, 2, bytestrings.as_slice());
            proof { lemma_bytestring_chunks(bytestrings@); }
        },
        DataItem::TextString(textstring) => definite_textstring_to_bytes(bytes, textstring),
        DataItem::IndefiniteTextString(textstrings) => {
            indefinite_string_to_bytes(bytes, 3, textstrings.as_slice());
            proof { lemma_textstring_chunks(textstrings@); }
        },
        DataItem::Array { data, bitwidth } => array_to_bytes(bytes, data.as_slice(), *bitwidth),
        DataItem::Mapping { data, bitwidth } => map_to_bytes(bytes, data.as_slice(), *bitwidth),
        DataItem::Tag { tag, bitwidth, value: inner } => tagged_to_bytes(bytes, *tag, *bitwidth, inner),
        DataItem::Float { value: v, bitwidth } => float_to_bytes(bytes, *v, *bitwidth),
        DataItem::Simple(simple) => simple_to_bytes(bytes, *simple),
    }
}

proof fn lemma_bytestring_chunks(s: Seq<ByteString>)
    ensures
        chunks_bytes(s) == bytestrings_bytes(bytestrings_view(s)),
    decreases s.len(),
{
    if s.len() > 0 {
        lemma_bytestring_chunks(s.drop_last());
        assert(bytestrings_view(s).drop_last() =~= bytestrings_view(s.drop_last()));
    }
}

proof fn lemma_textstring_chunks(s: Seq<TextString>)
    ensures
        chunks_bytes(s) == textstrings_bytes(textstrings_view(s)),
    decreases s.len(),
{
    if s.len() > 0 {
        lemma_textstring_chunks(s.drop_last());
        assert(textstrings_view(s).drop_last() =~= textstrings_view(s.drop_last()));
    }
}

impl DataItem {
    /// The binary CBOR encoding of this data item.
    pub fn to_bytes(&self) -> (bytes: Vec<u8>)
        ensures
            bytes@ == item_bytes(self@),
    {
        let mut bytes = Vec::with_capacity(128);
        item_to_bytes(&mut bytes, self);
        bytes
    }
}

} // verus!
