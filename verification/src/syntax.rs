use vstd::prelude::*;

verus! {

/// How many additional bytes are used to encode an integer (in bits).
#[derive(Debug, Eq, PartialEq, Copy, Clone)]
pub enum IntegerWidth {
    /// Parsed from CBOR diagnostic notation without an encoding indicator
    Unknown,
    /// For values <24 encoded directly in the additional data of the first byte
    Zero,
    /// One additional byte
    Eight,
    /// Two additional bytes
    Sixteen,
    /// Four additional bytes
    ThirtyTwo,
    /// Eight additional bytes
    SixtyFour,
}

/// How many additional bytes are used to encode a float (in bits).
#[derive(Debug, Eq, PartialEq, Copy, Clone)]
pub enum FloatWidth {
    /// Parsed from CBOR diagnostic notation without an encoding indicator
    Unknown,
    /// Two additional bytes
    Sixteen,
    /// Four additional bytes
    ThirtyTwo,
    /// Eight additional bytes
    SixtyFour,
}

/// A semantic tag for a CBOR data item.
#[derive(Debug, Eq, PartialEq, Copy, Clone)]
pub struct Tag(pub u64);

/// A "simple value" data item.
#[derive(Debug, Eq, PartialEq, Copy, Clone)]
pub struct Simple(pub u8);

/// A string of raw bytes with no direct attached meaning.
#[derive(Debug, PartialEq, Clone)]
pub struct ByteString {
    /// The raw binary data in this byte string
    pub data: Vec<u8>,
    /// The bitwidth used for encoding the length
    pub bitwidth: IntegerWidth,
}

/// A UTF-8 encoded text string.
#[derive(Debug, PartialEq, Clone)]
pub struct TextString {
    /// The textual data in this text string
    pub data: String,
    /// The bitwidth used for encoding the length
    pub bitwidth: IntegerWidth,
}

/// A CBOR data item.
///
/// Floating point values are held as their IEEE 754 bit pattern at the width
/// they are encoded with: the low 16 bits for [`FloatWidth::Sixteen`], the low
/// 32 bits for [`FloatWidth::ThirtyTwo`], and all 64 bits otherwise.
#[derive(Debug, PartialEq)]
pub enum DataItem {
    /// An unsigned integer.
    Integer { value: u64, bitwidth: IntegerWidth },
    /// A negative integer, whose real value is `-1 - value`.
    Negative { value: u64, bitwidth: IntegerWidth },
    /// A string of raw bytes.
    ByteString(ByteString),
    /// A UTF-8 encoded text string.
    TextString(TextString),
    /// A series of byte string chunks encoded as an indefinite length byte string.
    IndefiniteByteString(Vec<ByteString>),
    /// A series of text string chunks encoded as an indefinite length text string.
    IndefiniteTextString(Vec<TextString>),
    /// An array of data items; `bitwidth` is `None` for the indefinite length form.
    Array { data: Vec<DataItem>, bitwidth: Option<IntegerWidth> },
    /// A map of pairs of data items; `bitwidth` is `None` for the indefinite length form.
    Mapping { data: Vec<(DataItem, DataItem)>, bitwidth: Option<IntegerWidth> },
    /// Semantic tagging of another data item.
    Tag { tag: Tag, bitwidth: IntegerWidth, value: Box<DataItem> },
    /// A floating point value, held as its bit pattern (see the type's docs).
    Float { value: u64, bitwidth: FloatWidth },
    /// A "simple value" data item.
    Simple(Simple),
}

impl Simple {
    /// The simple value "False".
    pub const FALSE: u8 = 20;
    /// The simple value "True".
    pub const TRUE: u8 = 21;
    /// The simple value "Null".
    pub const NULL: u8 = 22;
    /// The simple value "Undefined value".
    pub const UNDEFINED: u8 = 23;
}

impl Tag {
    /// Standard date/time string.
    pub const DATETIME: u64 = 0;
    /// Epoch-based date/time.
    pub const EPOCH_DATETIME: u64 = 1;
    /// Positive bignum.
    pub const POSITIVE_BIGNUM: u64 = 2;
    /// Negative bignum.
    pub const NEGATIVE_BIGNUM: u64 = 3;
    /// Decimal fraction.
    pub const DECIMAL_FRACTION: u64 = 4;
    /// Bigfloat.
    pub const BIGFLOAT: u64 = 5;
    /// Expected later encoding of byte strings: base64url.
    pub const ENCODED_BASE64URL: u64 = 21;
    /// Expected later encoding of byte strings: base64.
    pub const ENCODED_BASE64: u64 = 22;
    /// Expected later encoding of byte strings: base16.
    pub const ENCODED_BASE16: u64 = 23;
    /// Encoded CBOR data item.
    pub const ENCODED_CBOR: u64 = 24;
    /// Marks a value as shareable.
    pub const SHAREABLE: u64 = 28;
    /// Reference to a previously shared value.
    pub const SHARED_REF: u64 = 29;
    /// URI.
    pub const URI: u64 = 32;
    /// base64url encoded text.
    pub const BASE64URL: u64 = 33;
    /// base64 encoded text.
    pub const BASE64: u64 = 34;
    /// Regular expression.
    pub const REGEX: u64 = 35;
    /// MIME message.
    pub const MIME: u64 = 36;
    /// Binary UUID.
    pub const UUID: u64 = 37;
    /// IPv4 address and/or prefix.
    pub const IPV4: u64 = 52;
    /// IPv6 address and/or prefix.
    pub const IPV6: u64 = 54;
    /// Encoded CBOR sequence.
    pub const ENCODED_CBOR_SEQ: u64 = 63;
    /// Typed array of u8.
    pub const TYPED_ARRAY_U8: u64 = 64;
    /// Typed array of u16, big endian.
    pub const TYPED_ARRAY_U16_BIG_ENDIAN: u64 = 65;
    /// Typed array of u32, big endian.
    pub const TYPED_ARRAY_U32_BIG_ENDIAN: u64 = 66;
    /// Typed array of u64, big endian.
    pub const TYPED_ARRAY_U64_BIG_ENDIAN: u64 = 67;
    /// Typed array of u8, clamped.
    pub const TYPED_ARRAY_U8_CLAMPED: u64 = 68;
    /// Typed array of u16, little endian.
    pub const TYPED_ARRAY_U16_LITTLE_ENDIAN: u64 = 69;
    /// Typed array of u32, little endian.
    pub const TYPED_ARRAY_U32_LITTLE_ENDIAN: u64 = 70;
    /// Typed array of u64, little endian.
    pub const TYPED_ARRAY_U64_LITTLE_ENDIAN: u64 = 71;
    /// Typed array of i8.
    pub const TYPED_ARRAY_I8: u64 = 72;
    /// Typed array of i16, big endian.
    pub const TYPED_ARRAY_I16_BIG_ENDIAN: u64 = 73;
    /// Typed array of i32, big endian.
    pub const TYPED_ARRAY_I32_BIG_ENDIAN: u64 = 74;
    /// Typed array of i64, big endian.
    pub const TYPED_ARRAY_I64_BIG_ENDIAN: u64 = 75;
    /// Typed array of i16, little endian.
    pub const TYPED_ARRAY_I16_LITTLE_ENDIAN: u64 = 77;
    /// Typed array of i32, little endian.
    pub const TYPED_ARRAY_I32_LITTLE_ENDIAN: u64 = 78;
    /// Typed array of i64, little endian.
    pub const TYPED_ARRAY_I64_LITTLE_ENDIAN: u64 = 79;
    /// Typed array of f16, big endian.
    pub const TYPED_ARRAY_F16_BIG_ENDIAN: u64 = 80;
    /// Typed array of f32, big endian.
    pub const TYPED_ARRAY_F32_BIG_ENDIAN: u64 = 81;
    /// Typed array of f64, big endian.
    pub const TYPED_ARRAY_F64_BIG_ENDIAN: u64 = 82;
    /// Typed array of f128, big endian.
    pub const TYPED_ARRAY_F128_BIG_ENDIAN: u64 = 83;
    /// Typed array of f16, little endian.
    pub const TYPED_ARRAY_F16_LITTLE_ENDIAN: u64 = 84;
    /// Typed array of f32, little endian.
    pub const TYPED_ARRAY_F32_LITTLE_ENDIAN: u64 = 85;
    /// Typed array of f64, little endian.
    pub const TYPED_ARRAY_F64_LITTLE_ENDIAN: u64 = 86;
    /// Typed array of f128, little endian.
    pub const TYPED_ARRAY_F128_LITTLE_ENDIAN: u64 = 87;
    /// Network address (IPv4, IPv6 or MAC).
    pub const NETWORK_ADDRESS: u64 = 260;
    /// Epoch-based date.
    pub const EPOCH_DATE: u64 = 100;
    /// Standard date string.
    pub const DATE: u64 = 1004;
    /// Self-described CBOR.
    pub const SELF_DESCRIBE_CBOR: u64 = 55799;
}

impl ByteString {
    /// A byte string holding `data`, the width of its length left to be
    /// chosen when it is encoded.
    pub fn new(data: Vec<u8>) -> (b: ByteString)
        ensures
            b@ == (SpecBytes { data: data@, bitwidth: IntegerWidth::Unknown }),
    {
        ByteString { data, bitwidth: IntegerWidth::Unknown }
    }

    /// This byte string with its length encoded with `bitwidth`.
    pub fn with_bitwidth(self, bitwidth: IntegerWidth) -> (b: ByteString)
        ensures
            b@ == (SpecBytes { data: self.data@, bitwidth }),
    {
        ByteString { data: self.data, bitwidth }
    }
}

/// The model of a byte string: its bytes and the width of its length.
pub struct SpecBytes {
    pub data: Seq<u8>,
    pub bitwidth: IntegerWidth,
}

/// The model of a text string: its characters and the width of its length.
pub struct SpecText {
    pub data: Seq<char>,
    pub bitwidth: IntegerWidth,
}

/// The mathematical model of a data item.
pub enum SpecItem {
    Integer { value: u64, bitwidth: IntegerWidth },
    Negative { value: u64, bitwidth: IntegerWidth },
    ByteString(SpecBytes),
    TextString(SpecText),
    IndefiniteByteString(Seq<SpecBytes>),
    IndefiniteTextString(Seq<SpecText>),
    Array { data: Seq<SpecItem>, bitwidth: Option<IntegerWidth> },
    Mapping { data: Seq<(SpecItem, SpecItem)>, bitwidth: Option<IntegerWidth> },
    Tag { tag: u64, bitwidth: IntegerWidth, value: Box<SpecItem> },
    Float { value: u64, bitwidth: FloatWidth },
    Simple(u8),
}

impl View for ByteString {
    type V = SpecBytes;

    open spec fn view(&self) -> SpecBytes {
        SpecBytes { data: self.data@, bitwidth: self.bitwidth }
    }
}

impl View for TextString {
    type V = SpecText;

    open spec fn view(&self) -> SpecText {
        SpecText { data: self.data@, bitwidth: self.bitwidth }
    }
}

/// The models of a sequence of byte strings.
pub open spec fn bytestrings_view(s: Seq<ByteString>) -> Seq<SpecBytes> {
    s.map_values(|b: ByteString| b@)
}

/// The models of a sequence of text strings.
pub open spec fn textstrings_view(s: Seq<TextString>) -> Seq<SpecText> {
    s.map_values(|t: TextString| t@)
}

/// The models of a sequence of data items.
pub open spec fn items_view(s: Seq<DataItem>) -> Seq<SpecItem>
    decreases s,
{
    if s.len() == 0 {
        Seq::empty()
    } else {
        items_view(s.drop_last()).push(s.last().view_item())
    }
}

/// The models of a sequence of pairs of data items.
pub open spec fn pairs_view(s: Seq<(DataItem, DataItem)>) -> Seq<(SpecItem, SpecItem)>
    decreases s,
{
    if s.len() == 0 {
        Seq::empty()
    } else {
        pairs_view(s.drop_last()).push((s.last().0.view_item(), s.last().1.view_item()))
    }
}

impl DataItem {
    /// The model of this data item.
    pub open spec fn view_item(&self) -> SpecItem
        decreases self,
    {
        match self {
            DataItem::Integer { value, bitwidth } => SpecItem::Integer { value: *value, bitwidth: *bitwidth },
            DataItem::Negative { value, bitwidth } => SpecItem::Negative { value: *value, bitwidth: *bitwidth },
            DataItem::ByteString(b) => SpecItem::ByteString(b@),
            DataItem::TextString(t) => SpecItem::TextString(t@),
            DataItem::IndefiniteByteString(v) => SpecItem::IndefiniteByteString(bytestrings_view(v@)),
            DataItem::IndefiniteTextString(v) => SpecItem::IndefiniteTextString(textstrings_view(v@)),
            DataItem::Array { data, bitwidth } => SpecItem::Array { data: items_view(data@), bitwidth: *bitwidth },
            DataItem::Mapping { data, bitwidth } => SpecItem::Mapping { data: pairs_view(data@), bitwidth: *bitwidth },
            DataItem::Tag { tag, bitwidth, value } => SpecItem::Tag { tag: tag.0, bitwidth: *bitwidth, value: Box::new(value.view_item()) },
            DataItem::Float { value, bitwidth } => SpecItem::Float { value: *value, bitwidth: *bitwidth },
            DataItem::Simple(s) => SpecItem::Simple(s.0),
        }
    }
}

impl View for DataItem {
    type V = SpecItem;

    open spec fn view(&self) -> SpecItem {
        self.view_item()
    }
}

/// `items_view` has one model per item, in order.
pub proof fn lemma_items_view(s: Seq<DataItem>)
    ensures
        items_view(s).len() == s.len(),
        forall|i: int| 0 <= i < s.len() ==> #[trigger] items_view(s)[i] == s[i].view_item(),
    decreases s.len(),
{
    if s.len() > 0 {
        lemma_items_view(s.drop_last());
    }
}

/// `pairs_view` has one pair of models per pair, in order.
pub proof fn lemma_pairs_view(s: Seq<(DataItem, DataItem)>)
    ensures
        pairs_view(s).len() == s.len(),
        forall|i: int| 0 <= i < s.len() ==> #[trigger] pairs_view(s)[i] == (s[i].0.view_item(), s[i].1.view_item()),
    decreases s.len(),
{
    if s.len() > 0 {
        lemma_pairs_view(s.drop_last());
    }
}

} // verus!
