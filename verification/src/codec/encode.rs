use super::{list_kind_tag, node_kind_tag, svarint, svarint_magnitude, uvarint, ListKind, NodeKind};
use crate::util::ConcreteEq;
use vstd::prelude::*;
use vstd::string::StringSliceAdditionalSpecFns;

verus! {

/// A value with a place in the save format: it knows its node kind and how to
/// write its payload.
pub trait Encode {
    /// The kind of node this value is written as.
    spec fn kind_spec() -> NodeKind;

    /// The payload bytes of this value (without its kind tag).
    spec fn encoding(&self) -> Seq<u8>;

    fn kind() -> (k: NodeKind)
        ensures
            k == Self::kind_spec(),
    ;

    fn encode(&self, encoder: &mut Encoder)
        ensures
            final(encoder)@ == old(encoder)@ + self.encoding(),
    ;
}

/// A value that can be written without a node kind.
trait BaseEncode {
    spec fn base_encoding(&self) -> Seq<u8>;

    fn encode(&self, writer: &mut Vec<u8>)
        ensures
            final(writer)@ == old(writer)@ + self.base_encoding(),
    ;
}

/// The sink that values are encoded into.
pub struct Encoder {
    bytes: Vec<u8>,
}

impl View for Encoder {
    type V = Seq<u8>;

    closed spec fn view(&self) -> Seq<u8> {
        self.bytes@
    }
}

/// Writes the entries of a map node; see `mapNode` in the format description.
pub struct MapEncoder {
    bytes: Vec<u8>,
}

impl View for MapEncoder {
    type V = Seq<u8>;

    closed spec fn view(&self) -> Seq<u8> {
        self.bytes@
    }
}

/// One entry of a map node whose key is fixed and whose value is yet to be
/// written.
pub struct MapEncoderEntry<'k> {
    encoder: MapEncoder,
    key: &'k str,
}

impl<'k> MapEncoderEntry<'k> {
    pub closed spec fn map_bytes(&self) -> Seq<u8> {
        self.encoder@
    }

    pub closed spec fn key(&self) -> &'k str {
        self.key
    }
}

/// A list of values written one after the other (`verbatimListNode`).
#[derive(Copy, Clone, Debug, Eq, PartialEq, Ord, PartialOrd, Hash, Default)]
pub struct Verbatim<T>(pub T);

/// A list of values written as runs of equal values (`rleListNode`).
#[derive(Copy, Clone, Debug, Eq, PartialEq, Ord, PartialOrd, Hash, Default)]
pub struct RunLength<T>(pub T);

/// An integer written as its fixed-width big-endian bytes.
#[derive(Copy, Clone, Debug, Eq, PartialEq, Ord, PartialOrd, Hash, Default)]
pub struct FixedInt<T>(pub T);

/// An integer written as a variable-length quantity.
#[derive(Copy, Clone, Debug, Eq, PartialEq, Ord, PartialOrd, Hash, Default)]
pub struct VarInt<T>(pub T);

// ---------------------------------------------------------------------------
// specifications of the encodings
// ---------------------------------------------------------------------------
/// The low `n` bytes of `v`, most significant first.
pub open spec fn be_bytes(v: nat, n: nat) -> Seq<u8>
    decreases n,
{
    if n == 0 {
        seq![]
    } else {
        be_bytes(v / 0x100, (n - 1) as nat).push((v % 0x100) as u8)
    }
}

/// A string: its byte length followed by its UTF-8 bytes.
pub open spec fn string_encoding(s: &str) -> Seq<u8> {
    uvarint(s.spec_bytes().len()) + s.spec_bytes()
}

pub open spec fn bool_encoding(b: bool) -> Seq<u8> {
    seq![if b { 1u8 } else { 0u8 }]
}

/// The payloads of `items`, one after the other.
pub open spec fn concat_encodings<T: Encode>(items: Seq<T>) -> Seq<u8>
    decreases items.len(),
{
    if items.len() == 0 {
        seq![]
    } else {
        concat_encodings(items.drop_last()) + items.last().encoding()
    }
}

/// Each run as its length followed by the payload of its value.
pub open spec fn runs_encoding<T: Encode>(runs: Seq<(nat, T)>) -> Seq<u8>
    decreases runs.len(),
{
    if runs.len() == 0 {
        seq![]
    } else {
        runs_encoding(runs.drop_last()) + uvarint(runs.last().0) + runs.last().1.encoding()
    }
}

/// The maximal runs of equal values in `s`, in order.
pub open spec fn rle_runs<T>(s: Seq<T>) -> Seq<(nat, T)>
    decreases s.len(),
{
    if s.len() == 0 {
        seq![]
    } else {
        let r = rle_runs(s.drop_last());
        if r.len() > 0 && r.last().1 == s.last() {
            r.update(r.len() - 1, ((r.last().0 + 1) as nat, s.last()))
        } else {
            r.push((1nat, s.last()))
        }
    }
}

/// The sequence that a list of runs stands for.
pub open spec fn expand_runs<T>(runs: Seq<(nat, T)>) -> Seq<T>
    decreases runs.len(),
{
    if runs.len() == 0 {
        seq![]
    } else {
        expand_runs(runs.drop_last()) + Seq::new(runs.last().0, |_i: int| runs.last().1)
    }
}

/// A verbatim list node: layout tag, element count, element kind, elements.
/// The count is written as a `u32`, as the format has it.
pub open spec fn verbatim_list_encoding<T: Encode>(items: Seq<T>) -> Seq<u8> {
    seq![list_kind_tag(ListKind::Verbatim)] + uvarint(items.len() % 0x1_0000_0000) + seq![
        node_kind_tag(T::kind_spec()),
    ] + concat_encodings(items)
}

/// A run-length list node made of the given runs.
pub open spec fn runs_list_encoding<T: Encode>(runs: Seq<(nat, T)>) -> Seq<u8> {
    seq![list_kind_tag(ListKind::RunLength), node_kind_tag(T::kind_spec())] + runs_encoding(runs)
        + uvarint(0)
}

/// A run-length list node of `items`.
pub open spec fn rle_list_encoding<T: Encode>(items: Seq<T>) -> Seq<u8> {
    runs_list_encoding(rle_runs(items))
}

/// The header of a map entry: the key and the kind of the value.
pub open spec fn entry_header(key: &str, kind: NodeKind) -> Seq<u8> {
    string_encoding(key) + seq![node_kind_tag(kind)]
}

pub open spec fn runs_with_lengths<T>(runs: Seq<(usize, T)>) -> Seq<(nat, T)> {
    runs.map_values(|r: (usize, T)| (r.0 as nat, r.1))
}

// ---------------------------------------------------------------------------
// laws of the run-length layout
// ---------------------------------------------------------------------------
/// The runs of a sequence expand back to that sequence; every run is
/// non-empty, and neighbouring runs hold different values.
pub proof fn lemma_rle_runs<T>(s: Seq<T>)
    ensures
        expand_runs(rle_runs(s)) == s,
        forall|i: int| 0 <= i < rle_runs(s).len() ==> #[trigger] rle_runs(s)[i].0 >= 1,
        forall|i: int|
            0 <= i < rle_runs(s).len() - 1 ==> #[trigger] rle_runs(s)[i].1 != rle_runs(s)[i
                + 1].1,
        s.len() == 0 <==> rle_runs(s).len() == 0,
    decreases s.len(),
{
    if s.len() > 0 {
        let p = s.drop_last();
        lemma_rle_runs(p);
        let r = rle_runs(p);
        if r.len() > 0 && r.last().1 == s.last() {
            let r2 = r.update(r.len() - 1, ((r.last().0 + 1) as nat, s.last()));
            assert(r2.drop_last() =~= r.drop_last());
            assert(r.drop_last().push(r.last()) =~= r);
            assert(expand_runs(r) == expand_runs(r.drop_last()) + Seq::new(
                r.last().0,
                |_i: int| r.last().1,
            ));
            assert(Seq::new(r.last().0, |_i: int| r.last().1).push(s.last()) =~= Seq::new(
                r2.last().0,
                |_i: int| r2.last().1,
            ));
            assert(expand_runs(r2) =~= expand_runs(r).push(s.last()));
            assert(p.push(s.last()) =~= s);
        } else {
            let r2 = r.push((1nat, s.last()));
            assert(r2.drop_last() =~= r);
            assert(Seq::new(1nat, |_i: int| s.last()) =~= seq![s.last()]);
            assert(p + seq![s.last()] =~= s);
        }
    }
}

/// Expanding a concatenation of run lists concatenates their expansions.
pub proof fn lemma_expand_runs_push<T>(runs: Seq<(nat, T)>, run: (nat, T))
    ensures
        expand_runs(runs.push(run)) == expand_runs(runs) + Seq::new(run.0, |_i: int| run.1),
{
    assert(runs.push(run).drop_last() =~= runs);
}

proof fn lemma_rle_runs_step<T>(s: Seq<T>, i: int)
    requires
        0 < i < s.len(),
    ensures
        s.take(i + 1).drop_last() == s.take(i),
        s.take(i + 1).last() == s[i],
{
    assert(s.take(i + 1).drop_last() =~= s.take(i));
}

proof fn lemma_concat_encodings_push<T: Encode>(items: Seq<T>, item: T)
    ensures
        concat_encodings(items.push(item)) == concat_encodings(items) + item.encoding(),
{
    assert(items.push(item).drop_last() =~= items);
}

proof fn lemma_runs_encoding_push<T: Encode>(runs: Seq<(nat, T)>, run: (nat, T))
    ensures
        runs_encoding(runs.push(run)) == runs_encoding(runs) + uvarint(run.0) + run.1.encoding(),
{
    assert(runs.push(run).drop_last() =~= runs);
}

// ---------------------------------------------------------------------------
// base encodings
// ---------------------------------------------------------------------------
fn write_uvarint(writer: &mut Vec<u8>, value: u64)
    ensures
        final(writer)@ == old(writer)@ + uvarint(value as nat),
{
    let mut cur = value;
    while cur > 0x7f
        invariant
            old(writer)@ + uvarint(value as nat) == writer@ + uvarint(cur as nat),
        decreases cur,
    {
        let byte: u8 = 0x80u8 | ((cur & 0x7f) as u8);
        assert(byte == 0x80 + cur % 0x80 && cur >> 7 == cur / 0x80) by (bit_vector)
            requires
                byte == 0x80u8 | ((cur & 0x7f) as u8),
        ;
        let ghost before = writer@;
        writer.push(byte);
        assert(uvarint(cur as nat) == seq![byte] + uvarint((cur / 0x80) as nat));
        assert(before + uvarint(cur as nat) =~= writer@ + uvarint((cur / 0x80) as nat));
        cur = cur >> 7;
    }
    let ghost before = writer@;
    writer.push(cur as u8);
    assert(before + uvarint(cur as nat) =~= writer@);
}

fn write_svarint(writer: &mut Vec<u8>, value: i64)
    ensures
        final(writer)@ == old(writer)@ + svarint(value as int),
{
    let sign: u8 = if value >= 0 { 0 } else { 0x40 };
    let mut cur: u64 = if value >= 0 { value as u64 } else { (-(value as i128)) as u64 };
    let ghost m: nat = cur as nat;
    assert(svarint(value as int) == svarint_magnitude(m, sign));
    while cur > 0x3f
        invariant
            old(writer)@ + svarint_magnitude(m, sign) == writer@ + svarint_magnitude(
                cur as nat,
                sign,
            ),
        decreases cur,
    {
        let byte: u8 = 0x80u8 | ((cur & 0x7f) as u8);
        assert(byte == 0x80 + cur % 0x80 && cur >> 7 == cur / 0x80) by (bit_vector)
            requires
                byte == 0x80u8 | ((cur & 0x7f) as u8),
        ;
        let ghost before = writer@;
        writer.push(byte);
        assert(svarint_magnitude(cur as nat, sign) == seq![byte] + svarint_magnitude(
            (cur / 0x80) as nat,
            sign,
        ));
        assert(before + svarint_magnitude(cur as nat, sign) =~= writer@ + svarint_magnitude(
            (cur / 0x80) as nat,
            sign,
        ));
        cur = cur >> 7;
    }
    let last: u8 = sign | (cur as u8);
    assert(last == sign + cur) by (bit_vector)
        requires
            last == sign | (cur as u8),
            cur <= 0x3f,
            sign == 0 || sign == 0x40,
    ;
    let ghost before = writer@;
    writer.push(last);
    assert(before + svarint_magnitude(cur as nat, sign) =~= writer@);
}

fn write_bytes(writer: &mut Vec<u8>, bytes: &[u8])
    ensures
        final(writer)@ == old(writer)@ + bytes@,
{
    let mut i: usize = 0;
    while i < bytes.len()
        invariant
            i <= bytes@.len(),
            writer@ == old(writer)@ + bytes@.take(i as int),
        decreases bytes.len() - i,
    {
        writer.push(bytes[i]);
        assert(bytes@.take(i + 1) =~= bytes@.take(i as int).push(bytes@[i as int]));
        i += 1;
    }
    assert(bytes@.take(i as int) =~= bytes@);
}

impl BaseEncode for str {
    spec fn base_encoding(&self) -> Seq<u8> {
        string_encoding(self)
    }

    fn encode(&self, writer: &mut Vec<u8>) {
        let bytes = self.as_bytes();
        write_uvarint(writer, bytes.len() as u64);
        write_bytes(writer, bytes);
        assert(writer@ =~= old(writer)@ + string_encoding(self));
    }
}

impl BaseEncode for bool {
    spec fn base_encoding(&self) -> Seq<u8> {
        bool_encoding(*self)
    }

    fn encode(&self, writer: &mut Vec<u8>) {
        writer.push(if *self { 1u8 } else { 0u8 });
        assert(writer@ =~= old(writer)@ + bool_encoding(*self));
    }
}

impl BaseEncode for FixedInt<u8> {
    spec fn base_encoding(&self) -> Seq<u8> {
        be_bytes(self.0 as nat, 1)
    }

    fn encode(&self, writer: &mut Vec<u8>) {
        writer.push(self.0);
        assert(be_bytes(self.0 as nat, 1) =~= seq![self.0]) by {
            assert(be_bytes(self.0 as nat / 0x100, 0) =~= Seq::<u8>::empty());
        }
        assert(writer@ =~= old(writer)@ + be_bytes(self.0 as nat, 1));
    }
}

fn write_be_bytes(writer: &mut Vec<u8>, value: u64, n: usize)
    requires
        1 <= n <= 8,
    ensures
        final(writer)@ == old(writer)@ + be_bytes(value as nat, n as nat),
    decreases n,
{
    if n > 1 {
        write_be_bytes(writer, value >> 8, n - 1);
        assert(value >> 8 == value / 0x100) by (bit_vector);
    } else {
        assert(be_bytes(value as nat / 0x100, 0) =~= Seq::<u8>::empty());
    }
    let byte = (value & 0xff) as u8;
    assert(byte == value % 0x100) by (bit_vector)
        requires
            byte == (value & 0xff) as u8,
    ;
    let ghost before = writer@;
    writer.push(byte);
    assert(writer@ =~= before.push(byte));
}

impl BaseEncode for FixedInt<u16> {
    spec fn base_encoding(&self) -> Seq<u8> {
        be_bytes(self.0 as nat, 2)
    }

    fn encode(&self, writer: &mut Vec<u8>) {
        write_be_bytes(writer, self.0 as u64, 2);
    }
}

impl BaseEncode for FixedInt<u32> {
    spec fn base_encoding(&self) -> Seq<u8> {
        be_bytes(self.0 as nat, 4)
    }

    fn encode(&self, writer: &mut Vec<u8>) {
        write_be_bytes(writer, self.0 as u64, 4);
    }
}

impl BaseEncode for FixedInt<u64> {
    spec fn base_encoding(&self) -> Seq<u8> {
        be_bytes(self.0 as nat, 8)
    }

    fn encode(&self, writer: &mut Vec<u8>) {
        write_be_bytes(writer, self.0, 8);
    }
}

impl BaseEncode for VarInt<u8> {
    spec fn base_encoding(&self) -> Seq<u8> {
        uvarint(self.0 as nat)
    }

    fn encode(&self, writer: &mut Vec<u8>) {
        write_uvarint(writer, self.0 as u64);
    }
}

impl BaseEncode for VarInt<u16> {
    spec fn base_encoding(&self) -> Seq<u8> {
        uvarint(self.0 as nat)
    }

    fn encode(&self, writer: &mut Vec<u8>) {
        write_uvarint(writer, self.0 as u64);
    }
}

impl BaseEncode for VarInt<u32> {
    spec fn base_encoding(&self) -> Seq<u8> {
        uvarint(self.0 as nat)
    }

    fn encode(&self, writer: &mut Vec<u8>) {
        write_uvarint(writer, self.0 as u64);
    }
}

impl BaseEncode for VarInt<u64> {
    spec fn base_encoding(&self) -> Seq<u8> {
        uvarint(self.0 as nat)
    }

    fn encode(&self, writer: &mut Vec<u8>) {
        write_uvarint(writer, self.0);
    }
}

impl BaseEncode for VarInt<usize> {
    spec fn base_encoding(&self) -> Seq<u8> {
        uvarint(self.0 as nat)
    }

    fn encode(&self, writer: &mut Vec<u8>) {
        write_uvarint(writer, self.0 as u64);
    }
}

impl BaseEncode for VarInt<i8> {
    spec fn base_encoding(&self) -> Seq<u8> {
        svarint(self.0 as int)
    }

    fn encode(&self, writer: &mut Vec<u8>) {
        write_svarint(writer, self.0 as i64);
    }
}

impl BaseEncode for VarInt<i16> {
    spec fn base_encoding(&self) -> Seq<u8> {
        svarint(self.0 as int)
    }

    fn encode(&self, writer: &mut Vec<u8>) {
        write_svarint(writer, self.0 as i64);
    }
}

impl BaseEncode for VarInt<i32> {
    spec fn base_encoding(&self) -> Seq<u8> {
        svarint(self.0 as int)
    }

    fn encode(&self, writer: &mut Vec<u8>) {
        write_svarint(writer, self.0 as i64);
    }
}

impl BaseEncode for VarInt<i64> {
    spec fn base_encoding(&self) -> Seq<u8> {
        svarint(self.0 as int)
    }

    fn encode(&self, writer: &mut Vec<u8>) {
        write_svarint(writer, self.0);
    }
}

impl BaseEncode for VarInt<isize> {
    spec fn base_encoding(&self) -> Seq<u8> {
        svarint(self.0 as int)
    }

    fn encode(&self, writer: &mut Vec<u8>) {
        write_svarint(writer, self.0 as i64);
    }
}

fn encode_base<T: BaseEncode + ?Sized>(writer: &mut Vec<u8>, item: &T)
    ensures
        final(writer)@ == old(writer)@ + item.base_encoding(),
{
    item.encode(writer)
}


// ---------------------------------------------------------------------------
// node encodings of primitive values
// ---------------------------------------------------------------------------
impl Encode for bool {
    open spec fn kind_spec() -> NodeKind {
        NodeKind::Bool
    }

    open spec fn encoding(&self) -> Seq<u8> {
        bool_encoding(*self)
    }

    fn kind() -> (k: NodeKind) {
        NodeKind::Bool
    }

    fn encode(&self, encoder: &mut Encoder) {
        encode_base(&mut encoder.bytes, self);
    }
}

impl Encode for str {
    open spec fn kind_spec() -> NodeKind {
        NodeKind::String
    }

    open spec fn encoding(&self) -> Seq<u8> {
        string_encoding(self)
    }

    fn kind() -> (k: NodeKind) {
        NodeKind::String
    }

    fn encode(&self, encoder: &mut Encoder) {
        encode_base(&mut encoder.bytes, self);
    }
}

impl Encode for u8 {
    open spec fn kind_spec() -> NodeKind {
        NodeKind::UnsignedVarInt
    }

    open spec fn encoding(&self) -> Seq<u8> {
        uvarint(*self as nat)
    }

    fn kind() -> (k: NodeKind) {
        NodeKind::UnsignedVarInt
    }

    fn encode(&self, encoder: &mut Encoder) {
        encode_base(&mut encoder.bytes, &VarInt(*self));
    }
}

impl Encode for u16 {
    open spec fn kind_spec() -> NodeKind {
        NodeKind::UnsignedVarInt
    }

    open spec fn encoding(&self) -> Seq<u8> {
        uvarint(*self as nat)
    }

    fn kind() -> (k: NodeKind) {
        NodeKind::UnsignedVarInt
    }

    fn encode(&self, encoder: &mut Encoder) {
        encode_base(&mut encoder.bytes, &VarInt(*self));
    }
}

impl Encode for u32 {
    open spec fn kind_spec() -> NodeKind {
        NodeKind::UnsignedVarInt
    }

    open spec fn encoding(&self) -> Seq<u8> {
        uvarint(*self as nat)
    }

    fn kind() -> (k: NodeKind) {
        NodeKind::UnsignedVarInt
    }

    fn encode(&self, encoder: &mut Encoder) {
        encode_base(&mut encoder.bytes, &VarInt(*self));
    }
}

impl Encode for u64 {
    open spec fn kind_spec() -> NodeKind {
        NodeKind::UnsignedVarInt
    }

    open spec fn encoding(&self) -> Seq<u8> {
        uvarint(*self as nat)
    }

    fn kind() -> (k: NodeKind) {
        NodeKind::UnsignedVarInt
    }

    fn encode(&self, encoder: &mut Encoder) {
        encode_base(&mut encoder.bytes, &VarInt(*self));
    }
}

impl Encode for usize {
    open spec fn kind_spec() -> NodeKind {
        NodeKind::UnsignedVarInt
    }

    open spec fn encoding(&self) -> Seq<u8> {
        uvarint(*self as nat)
    }

    fn kind() -> (k: NodeKind) {
        NodeKind::UnsignedVarInt
    }

    fn encode(&self, encoder: &mut Encoder) {
        encode_base(&mut encoder.bytes, &VarInt(*self));
    }
}

impl Encode for i8 {
    open spec fn kind_spec() -> NodeKind {
        NodeKind::SignedVarInt
    }

    open spec fn encoding(&self) -> Seq<u8> {
        svarint(*self as int)
    }

    fn kind() -> (k: NodeKind) {
        NodeKind::SignedVarInt
    }

    fn encode(&self, encoder: &mut Encoder) {
        encode_base(&mut encoder.bytes, &VarInt(*self));
    }
}

impl Encode for i16 {
    open spec fn kind_spec() -> NodeKind {
        NodeKind::SignedVarInt
    }

    open spec fn encoding(&self) -> Seq<u8> {
        svarint(*self as int)
    }

    fn kind() -> (k: NodeKind) {
        NodeKind::SignedVarInt
    }

    fn encode(&self, encoder: &mut Encoder) {
        encode_base(&mut encoder.bytes, &VarInt(*self));
    }
}

impl Encode for i32 {
    open spec fn kind_spec() -> NodeKind {
        NodeKind::SignedVarInt
    }

    open spec fn encoding(&self) -> Seq<u8> {
        svarint(*self as int)
    }

    fn kind() -> (k: NodeKind) {
        NodeKind::SignedVarInt
    }

    fn encode(&self, encoder: &mut Encoder) {
        encode_base(&mut encoder.bytes, &VarInt(*self));
    }
}

impl Encode for i64 {
    open spec fn kind_spec() -> NodeKind {
        NodeKind::SignedVarInt
    }

    open spec fn encoding(&self) -> Seq<u8> {
        svarint(*self as int)
    }

    fn kind() -> (k: NodeKind) {
        NodeKind::SignedVarInt
    }

    fn encode(&self, encoder: &mut Encoder) {
        encode_base(&mut encoder.bytes, &VarInt(*self));
    }
}

impl Encode for isize {
    open spec fn kind_spec() -> NodeKind {
        NodeKind::SignedVarInt
    }

    open spec fn encoding(&self) -> Seq<u8> {
        svarint(*self as int)
    }

    fn kind() -> (k: NodeKind) {
        NodeKind::SignedVarInt
    }

    fn encode(&self, encoder: &mut Encoder) {
        encode_base(&mut encoder.bytes, &VarInt(*self));
    }
}

// ---------------------------------------------------------------------------
// node writers
// ---------------------------------------------------------------------------
fn encode<T: Encode + ?Sized>(writer: &mut Vec<u8>, item: &T)
    ensures
        final(writer)@ == old(writer)@ + item.encoding(),
{
    let mut encoder = Encoder { bytes: Vec::new() };
    std::mem::swap(&mut encoder.bytes, writer);
    item.encode(&mut encoder);
    std::mem::swap(&mut encoder.bytes, writer);
}

fn encode_verbatim_list<T: Encode>(writer: &mut Vec<u8>, items: &[T])
    ensures
        final(writer)@ == old(writer)@ + verbatim_list_encoding(items@),
{
    // see `verbatimListNode` in the format description
    encode_base(writer, &FixedInt(ListKind::Verbatim.tag()));
    let n64: u64 = items.len() as u64;
    let count = n64 as u32;
    assert(count as nat == items@.len() % 0x1_0000_0000) by {
        assert((n64 as u32) as u64 == n64 % 0x1_0000_0000) by (bit_vector);
    }
    encode_base(writer, &VarInt(count));
    encode_base(writer, &FixedInt(T::kind().tag()));
    assert(be_bytes(list_kind_tag(ListKind::Verbatim) as nat, 1) =~= seq![list_kind_tag(ListKind::Verbatim)]) by {
        assert(be_bytes(list_kind_tag(ListKind::Verbatim) as nat / 0x100, 0) =~= Seq::<u8>::empty());
    }
    assert(be_bytes(node_kind_tag(T::kind_spec()) as nat, 1) =~= seq![node_kind_tag(T::kind_spec())]) by {
        assert(be_bytes(node_kind_tag(T::kind_spec()) as nat / 0x100, 0) =~= Seq::<u8>::empty());
    }
    let ghost start = writer@;
    let mut i: usize = 0;
    while i < items.len()
        invariant
            i <= items@.len(),
            writer@ == start + concat_encodings(items@.take(i as int)),
        decreases items.len() - i,
    {
        encode(writer, &items[i]);
        proof {
            lemma_concat_encodings_push(items@.take(i as int), items@[i as int]);
            assert(items@.take(i as int).push(items@[i as int]) =~= items@.take(i + 1));
        }
        i += 1;
    }
    assert(items@.take(i as int) =~= items@);
    assert(writer@ =~= old(writer)@ + verbatim_list_encoding(items@));
}

fn encode_rle_list<T: Encode + ConcreteEq>(writer: &mut Vec<u8>, items: &[T])
    ensures
        final(writer)@ == old(writer)@ + rle_list_encoding(items@),
{
    proof {
        T::lemma_eq_is_equality();
        reveal(vstd::laws_eq::obeys_concrete_eq);
    }
    // see `rleListNode` in the format description
    encode_base(writer, &FixedInt(ListKind::RunLength.tag()));
    encode_base(writer, &FixedInt(T::kind().tag()));
    assert(be_bytes(list_kind_tag(ListKind::RunLength) as nat, 1) =~= seq![list_kind_tag(ListKind::RunLength)]) by {
        assert(be_bytes(list_kind_tag(ListKind::RunLength) as nat / 0x100, 0) =~= Seq::<u8>::empty());
    }
    assert(be_bytes(node_kind_tag(T::kind_spec()) as nat, 1) =~= seq![node_kind_tag(T::kind_spec())]) by {
        assert(be_bytes(node_kind_tag(T::kind_spec()) as nat / 0x100, 0) =~= Seq::<u8>::empty());
    }
    let ghost start = writer@;
    let ghost s = items@;
    if items.len() > 0 {
        let mut run_len: usize = 1;
        let mut cur: usize = 0;
        let mut i: usize = 1;
        assert(s.take(1).drop_last() =~= Seq::<T>::empty());
        assert(rle_runs(s.take(0)) =~= Seq::<(nat, T)>::empty());
        assert(s.take(0) =~= s.take(1).drop_last());
        assert(rle_runs(s.take(1)) =~= seq![(1nat, s[0])]);
        while i < items.len()
            invariant
                vstd::laws_eq::obeys_concrete_eq::<T>(),
                s == items@,
                1 <= i <= s.len(),
                cur < i,
                1 <= run_len <= i,
                rle_runs(s.take(i as int)).len() > 0,
                rle_runs(s.take(i as int)).last() == (run_len as nat, s[cur as int]),
                writer@ == start + runs_encoding(rle_runs(s.take(i as int)).drop_last()),
            decreases s.len() - i,
        {
            let ghost r = rle_runs(s.take(i as int));
            proof {
                lemma_rle_runs_step(s, i as int);
                reveal(vstd::laws_eq::obeys_concrete_eq);
            }
            if items[cur] != items[i] {
                encode_base(writer, &VarInt(run_len));
                encode(writer, &items[cur]);
                proof {
                    assert(r.drop_last().push(r.last()) =~= r);
                    lemma_runs_encoding_push(r.drop_last(), r.last());
                    assert(rle_runs(s.take(i + 1)) == r.push((1nat, s[i as int])));
                    assert(r.push((1nat, s[i as int])).drop_last() =~= r);
                }
                run_len = 1;
                cur = i;
            } else {
                proof {
                    assert(rle_runs(s.take(i + 1)) == r.update(
                        r.len() - 1,
                        ((r.last().0 + 1) as nat, s[i as int]),
                    ));
                    assert(r.update(r.len() - 1, ((r.last().0 + 1) as nat, s[i as int])).drop_last()
                        =~= r.drop_last());
                }
                run_len += 1;
            }
            i += 1;
        }
        let ghost r = rle_runs(s.take(i as int));
        encode_base(writer, &VarInt(run_len));
        encode(writer, &items[cur]);
        proof {
            assert(s.take(i as int) =~= s);
            assert(r.drop_last().push(r.last()) =~= r);
            lemma_runs_encoding_push(r.drop_last(), r.last());
        }
    } else {
        assert(s =~= Seq::<T>::empty());
    }
    encode_base(writer, &VarInt(0u8));
    assert(writer@ =~= old(writer)@ + rle_list_encoding(items@));
}

fn encode_rle_list_runs<T: Encode>(writer: &mut Vec<u8>, runs: &[(usize, T)])
    ensures
        final(writer)@ == old(writer)@ + runs_list_encoding(runs_with_lengths(runs@)),
{
    encode_base(writer, &FixedInt(ListKind::RunLength.tag()));
    // see `rleListNode` in the format description
    encode_base(writer, &FixedInt(T::kind().tag()));
    assert(be_bytes(list_kind_tag(ListKind::RunLength) as nat, 1) =~= seq![list_kind_tag(ListKind::RunLength)]) by {
        assert(be_bytes(list_kind_tag(ListKind::RunLength) as nat / 0x100, 0) =~= Seq::<u8>::empty());
    }
    assert(be_bytes(node_kind_tag(T::kind_spec()) as nat, 1) =~= seq![node_kind_tag(T::kind_spec())]) by {
        assert(be_bytes(node_kind_tag(T::kind_spec()) as nat / 0x100, 0) =~= Seq::<u8>::empty());
    }
    let ghost start = writer@;
    let ghost rs = runs_with_lengths(runs@);
    let mut i: usize = 0;
    while i < runs.len()
        invariant
            i <= runs@.len(),
            rs == runs_with_lengths(runs@),
            writer@ == start + runs_encoding(rs.take(i as int)),
        decreases runs.len() - i,
    {
        let (len, item) = &runs[i];
        encode_base(writer, &VarInt(*len));
        encode(writer, item);
        proof {
            lemma_runs_encoding_push(rs.take(i as int), rs[i as int]);
            assert(rs.take(i as int).push(rs[i as int]) =~= rs.take(i + 1));
        }
        i += 1;
    }
    assert(rs.take(i as int) =~= rs);
    encode_base(writer, &VarInt(0u8));
    assert(writer@ =~= old(writer)@ + runs_list_encoding(rs));
}


/// Writes a map node: `func` writes its entries, then the terminator
/// follows, unless `func` gives an error, which is handed back with no
/// terminator written.
fn encode_map<E, F: FnOnce(MapEncoder) -> (MapEncoder, Result<(), E>)>(writer: &mut Vec<u8>, func: F) -> (r: Result<(), E>)
    requires
        forall|m: MapEncoder| m@ == old(writer)@ ==> #[trigger] func.requires((m,)),
    ensures
        exists|m_in: MapEncoder, out: (MapEncoder, Result<(), E>)|
            {
                &&& m_in@ == old(writer)@
                &&& #[trigger] func.ensures((m_in,), out)
                &&& r == out.1
                &&& final(writer)@ == if out.1 is Ok { out.0@ + uvarint(0) } else { out.0@ }
            },
{
    // see `mapNode` in the format description
    let mut bytes: Vec<u8> = Vec::new();
    std::mem::swap(&mut bytes, writer);
    let m_in = MapEncoder { bytes };
    let ghost g_in = m_in;
    let out = func(m_in);
    let ghost g_out = out;
    let m_out = out.0;
    let status = out.1;
    let mut out_bytes = m_out.bytes;
    std::mem::swap(&mut out_bytes, writer);
    if status.is_ok() {
        encode_base(writer, &VarInt(0u8));
    }
    assert(g_in@ == old(writer)@ && func.ensures((g_in,), g_out) && status == g_out.1
        && writer@ == if g_out.1 is Ok { g_out.0@ + uvarint(0) } else { g_out.0@ });
    status
}

impl Encoder {
    pub fn new() -> (r: Encoder)
        ensures
            r@ == Seq::<u8>::empty(),
    {
        Encoder { bytes: Vec::new() }
    }

    pub fn into_bytes(self) -> (r: Vec<u8>)
        ensures
            r@ == self@,
    {
        self.bytes
    }

    pub fn encode<T: Encode + ?Sized>(&mut self, item: &T)
        ensures
            final(self)@ == old(self)@ + item.encoding(),
    {
        encode(&mut self.bytes, item)
    }

    pub fn encode_verbatim_list<T: Encode>(&mut self, items: &[T])
        ensures
            final(self)@ == old(self)@ + verbatim_list_encoding(items@),
    {
        encode_verbatim_list(&mut self.bytes, items)
    }

    pub fn encode_rle_list<T: Encode + ConcreteEq>(&mut self, items: &[T])
        ensures
            final(self)@ == old(self)@ + rle_list_encoding(items@),
    {
        encode_rle_list(&mut self.bytes, items)
    }

    pub fn encode_rle_list_runs<T: Encode>(&mut self, runs: &[(usize, T)])
        ensures
            final(self)@ == old(self)@ + runs_list_encoding(runs_with_lengths(runs@)),
    {
        encode_rle_list_runs(&mut self.bytes, runs)
    }

    /// Writes a map node whose entries `func` writes; an error of `func`
    /// is handed back, and the node is then left without its terminator.
    pub fn encode_map<E, F: FnOnce(MapEncoder) -> (MapEncoder, Result<(), E>)>(&mut self, func: F) -> (r: Result<(), E>)
        requires
            forall|m: MapEncoder| m@ == old(self)@ ==> #[trigger] func.requires((m,)),
        ensures
            exists|m_in: MapEncoder, out: (MapEncoder, Result<(), E>)|
                {
                    &&& m_in@ == old(self)@
                    &&& #[trigger] func.ensures((m_in,), out)
                    &&& r == out.1
                    &&& final(self)@ == if out.1 is Ok { out.0@ + uvarint(0) } else { out.0@ }
                },
    {
        encode_map(&mut self.bytes, func)
    }
}

impl MapEncoder {
    // see `mapNode` in the format description
    pub fn entry<'k>(self, key: &'k str) -> (r: MapEncoderEntry<'k>)
        requires
            key@.len() > 0,
        ensures
            r.map_bytes() == self@,
            r.key() == key,
    {
        MapEncoderEntry { encoder: self, key }
    }
}

impl<'k> MapEncoderEntry<'k> {
    fn encode_header(self, kind: NodeKind) -> (r: Vec<u8>)
        ensures
            r@ == self.map_bytes() + entry_header(self.key(), kind),
    {
        let mut bytes = self.encoder.bytes;
        encode_base(&mut bytes, self.key);
        encode_base(&mut bytes, &FixedInt(kind.tag()));
        assert(be_bytes(node_kind_tag(kind) as nat, 1) =~= seq![node_kind_tag(kind)]) by {
            assert(be_bytes(node_kind_tag(kind) as nat / 0x100, 0) =~= Seq::<u8>::empty());
        }
        assert(bytes@ =~= self.map_bytes() + entry_header(self.key(), kind));
        bytes
    }

    // see `mapNode` in the format description
    pub fn encode<T: Encode + ?Sized>(self, item: &T) -> (r: MapEncoder)
        ensures
            r@ == self.map_bytes() + entry_header(self.key(), T::kind_spec()) + item.encoding(),
    {
        let mut bytes = self.encode_header(T::kind());
        encode(&mut bytes, item);
        MapEncoder { bytes }
    }

    pub fn encode_verbatim_list<T: Encode>(self, items: &[T]) -> (r: MapEncoder)
        ensures
            r@ == self.map_bytes() + entry_header(self.key(), NodeKind::List)
                + verbatim_list_encoding(items@),
    {
        let mut bytes = self.encode_header(NodeKind::List);
        encode_verbatim_list(&mut bytes, items);
        MapEncoder { bytes }
    }

    pub fn encode_rle_list<T: Encode + ConcreteEq>(self, items: &[T]) -> (r: MapEncoder)
        ensures
            r@ == self.map_bytes() + entry_header(self.key(), NodeKind::List) + rle_list_encoding(
                items@,
            ),
    {
        let mut bytes = self.encode_header(NodeKind::List);
        encode_rle_list(&mut bytes, items);
        MapEncoder { bytes }
    }

    pub fn encode_rle_list_runs<T: Encode>(self, runs: &[(usize, T)]) -> (r: MapEncoder)
        ensures
            r@ == self.map_bytes() + entry_header(self.key(), NodeKind::List) + runs_list_encoding(
                runs_with_lengths(runs@),
            ),
    {
        let mut bytes = self.encode_header(NodeKind::List);
        encode_rle_list_runs(&mut bytes, runs);
        MapEncoder { bytes }
    }

    /// Writes the entry as a map node whose entries `func` writes, and
    /// gives back the outer map with what `func` gave: an error of `func`
    /// leaves the inner node without its terminator.
    pub fn encode_map<E, F: FnOnce(MapEncoder) -> (MapEncoder, Result<(), E>)>(self, func: F) -> (r: (MapEncoder, Result<(), E>))
        requires
            forall|m: MapEncoder|
                m@ == self.map_bytes() + entry_header(self.key(), NodeKind::MapNode)
                    ==> #[trigger] func.requires((m,)),
        ensures
            exists|m_in: MapEncoder, out: (MapEncoder, Result<(), E>)|
                {
                    &&& m_in@ == self.map_bytes() + entry_header(self.key(), NodeKind::MapNode)
                    &&& #[trigger] func.ensures((m_in,), out)
                    &&& r.1 == out.1
                    &&& r.0@ == if out.1 is Ok { out.0@ + uvarint(0) } else { out.0@ }
                },
    {
        let mut bytes = self.encode_header(NodeKind::MapNode);
        let status = encode_map(&mut bytes, func);
        (MapEncoder { bytes }, status)
    }
}

impl<T: Encode> Encode for Verbatim<Vec<T>> {
    open spec fn kind_spec() -> NodeKind {
        NodeKind::List
    }

    open spec fn encoding(&self) -> Seq<u8> {
        verbatim_list_encoding(self.0@)
    }

    fn kind() -> (k: NodeKind) {
        NodeKind::List
    }

    fn encode(&self, encoder: &mut Encoder) {
        encoder.encode_verbatim_list(self.0.as_slice())
    }
}

impl<T: Encode + ConcreteEq> Encode for RunLength<Vec<T>> {
    open spec fn kind_spec() -> NodeKind {
        NodeKind::List
    }

    open spec fn encoding(&self) -> Seq<u8> {
        rle_list_encoding(self.0@)
    }

    fn kind() -> (k: NodeKind) {
        NodeKind::List
    }

    fn encode(&self, encoder: &mut Encoder) {
        encoder.encode_rle_list(self.0.as_slice())
    }
}

impl<'a, T: Encode> Encode for Verbatim<&'a [T]> {
    open spec fn kind_spec() -> NodeKind {
        NodeKind::List
    }

    open spec fn encoding(&self) -> Seq<u8> {
        verbatim_list_encoding(self.0@)
    }

    fn kind() -> (k: NodeKind) {
        NodeKind::List
    }

    fn encode(&self, encoder: &mut Encoder) {
        encoder.encode_verbatim_list(self.0)
    }
}

impl<'a, T: Encode + ConcreteEq> Encode for RunLength<&'a [T]> {
    open spec fn kind_spec() -> NodeKind {
        NodeKind::List
    }

    open spec fn encoding(&self) -> Seq<u8> {
        rle_list_encoding(self.0@)
    }

    fn kind() -> (k: NodeKind) {
        NodeKind::List
    }

    fn encode(&self, encoder: &mut Encoder) {
        encoder.encode_rle_list(self.0)
    }
}

} // verus!
