//! The entity metadata record: a sparse table from small indices to typed
//! values, written as index, type tag and payload per entry, and closed by
//! a `0xFF` byte.
use crate::mctypes::{
    is_rest_of, lemma_rest_trans,
    be_bytes, pack_position, parse_be, parse_bool, parse_slot, parse_string, parse_varint,
    latin1, lemma_be_bytes_len, lemma_be_read_back, lemma_bool_read_back, lemma_parse_within, lemma_position_read_back,
    lemma_slot_read_back, lemma_string_read_back, lemma_varint_round_trip, parse_block_position,
    pow256, put_block_position, put_bool, put_u32_be, put_slot, put_string, put_uuid, put_var_int, spec_slot,
    spec_string, spec_varint, unpack_position, BlockPosition, ByteReader, ItemStack, McTypeError,
    MAX_VAR_INT_SIZE,
};
use vstd::prelude::*;
use vstd::string::StringSliceAdditionalSpecFns;
use vstd::utf8::encode_utf8;

verus! {

/// The number of usable indices; `0xFF` closes the record.
pub const INDEX_COUNT: usize = 255;

/// The byte that ends an entity metadata record.
pub const END_MARKER: u8 = 0xFF;

/// A block face direction.
#[derive(Clone, Copy, Debug, PartialEq, Eq, Structural)]
pub enum Direction {
    Down,
    Up,
    North,
    South,
    West,
    East,
}

impl Direction {
    pub open spec fn spec_id(self) -> i32 {
        match self {
            Direction::Down => 0,
            Direction::Up => 1,
            Direction::North => 2,
            Direction::South => 3,
            Direction::West => 4,
            Direction::East => 5,
        }
    }

    /// The direction's protocol id: down 0, up 1, north 2, south 3, west 4,
    /// east 5.
    pub fn id(&self) -> (r: i32)
        ensures
            r == self.spec_id(),
            0 <= r < 6,
    {
        match self {
            Direction::Down => 0,
            Direction::Up => 1,
            Direction::North => 2,
            Direction::South => 3,
            Direction::West => 4,
            Direction::East => 5,
        }
    }

    pub open spec fn spec_from_id(id: i32) -> Option<Direction> {
        if id == 0 {
            Some(Direction::Down)
        } else if id == 1 {
            Some(Direction::Up)
        } else if id == 2 {
            Some(Direction::North)
        } else if id == 3 {
            Some(Direction::South)
        } else if id == 4 {
            Some(Direction::West)
        } else if id == 5 {
            Some(Direction::East)
        } else {
            None
        }
    }

    /// The direction with the given protocol id, if any.
    pub fn from_id(id: i32) -> (r: Option<Direction>)
        ensures
            r == Self::spec_from_id(id),
    {
        if id == 0 {
            Some(Direction::Down)
        } else if id == 1 {
            Some(Direction::Up)
        } else if id == 2 {
            Some(Direction::North)
        } else if id == 3 {
            Some(Direction::South)
        } else if id == 4 {
            Some(Direction::West)
        } else if id == 5 {
            Some(Direction::East)
        } else {
            None
        }
    }
}

/// One typed value of an entity's metadata. Floats are held as their IEEE
/// 754 bit patterns.
pub enum MetaEntry {
    Byte(i8),
    VarInt(i32),
    Float(u32),
    String(String),
    Chat(String),
    OptChat(Option<String>),
    Slot(Option<ItemStack>),
    Boolean(bool),
    Rotation(u32, u32, u32),
    Position(BlockPosition),
    OptPosition(Option<BlockPosition>),
    Direction(Direction),
    OptUuid(Option<u128>),
    OptBlockId(Option<i32>),
    Nbt,
    Particle,
}

/// The mathematical value of a `MetaEntry`: strings as character sequences.
pub enum MetaValue {
    Byte(i8),
    VarInt(i32),
    Float(u32),
    String(Seq<char>),
    Chat(Seq<char>),
    OptChat(Option<Seq<char>>),
    Slot(Option<ItemStack>),
    Boolean(bool),
    Rotation(u32, u32, u32),
    Position(BlockPosition),
    OptPosition(Option<BlockPosition>),
    Direction(Direction),
    OptUuid(Option<u128>),
    OptBlockId(Option<i32>),
    Nbt,
    Particle,
}

impl View for MetaEntry {
    type V = MetaValue;

    open spec fn view(&self) -> MetaValue {
        match self {
            MetaEntry::Byte(x) => MetaValue::Byte(*x),
            MetaEntry::VarInt(x) => MetaValue::VarInt(*x),
            MetaEntry::Float(x) => MetaValue::Float(*x),
            MetaEntry::String(x) => MetaValue::String(x@),
            MetaEntry::Chat(x) => MetaValue::Chat(x@),
            MetaEntry::OptChat(x) => MetaValue::OptChat(
                match x {
                    Some(s) => Some(s@),
                    None => None,
                },
            ),
            MetaEntry::Slot(x) => MetaValue::Slot(*x),
            MetaEntry::Boolean(x) => MetaValue::Boolean(*x),
            MetaEntry::Rotation(a, b, c) => MetaValue::Rotation(*a, *b, *c),
            MetaEntry::Position(x) => MetaValue::Position(*x),
            MetaEntry::OptPosition(x) => MetaValue::OptPosition(*x),
            MetaEntry::Direction(x) => MetaValue::Direction(*x),
            MetaEntry::OptUuid(x) => MetaValue::OptUuid(*x),
            MetaEntry::OptBlockId(x) => MetaValue::OptBlockId(*x),
            MetaEntry::Nbt => MetaValue::Nbt,
            MetaEntry::Particle => MetaValue::Particle,
        }
    }
}

/// The type tag of each kind of value.
pub open spec fn spec_tag(v: MetaValue) -> i32 {
    match v {
        MetaValue::Byte(_) => 0,
        MetaValue::VarInt(_) => 1,
        MetaValue::Float(_) => 2,
        MetaValue::String(_) => 3,
        MetaValue::Chat(_) => 4,
        MetaValue::OptChat(_) => 5,
        MetaValue::Slot(_) => 6,
        MetaValue::Boolean(_) => 7,
        MetaValue::Rotation(_, _, _) => 8,
        MetaValue::Position(_) => 9,
        MetaValue::OptPosition(_) => 10,
        MetaValue::Direction(_) => 11,
        MetaValue::OptUuid(_) => 12,
        MetaValue::OptBlockId(_) => 13,
        MetaValue::Nbt => 14,
        MetaValue::Particle => 15,
    }
}

/// The bound on the payload size of each kind of value.
pub open spec fn spec_entry_size(v: MetaValue) -> nat {
    match v {
        MetaValue::Byte(_) => 1,
        MetaValue::VarInt(_) => 5,
        MetaValue::Float(_) => 4,
        MetaValue::String(s) => 5 + encode_utf8(s).len(),
        MetaValue::Chat(s) => 5 + encode_utf8(s).len(),
        MetaValue::OptChat(o) => match o {
            Some(s) => 6 + encode_utf8(s).len(),
            None => 5,
        },
        MetaValue::Slot(_) => 8,
        MetaValue::Boolean(_) => 1,
        MetaValue::Rotation(_, _, _) => 12,
        MetaValue::Position(_) => 8,
        MetaValue::OptPosition(_) => 9,
        MetaValue::Direction(_) => 5,
        MetaValue::OptUuid(_) => 17,
        MetaValue::OptBlockId(_) => 5,
        MetaValue::Nbt => 0,
        MetaValue::Particle => 0,
    }
}

/// A value that the record encoder can write: no blob or particle payload,
/// and strings whose byte length fits a VarInt.
pub open spec fn writable(v: MetaValue) -> bool {
    match v {
        MetaValue::String(s) => encode_utf8(s).len() <= i32::MAX,
        MetaValue::Chat(s) => encode_utf8(s).len() <= i32::MAX,
        MetaValue::OptChat(Some(s)) => encode_utf8(s).len() <= i32::MAX,
        MetaValue::Nbt => false,
        MetaValue::Particle => false,
        _ => true,
    }
}

/// The two's-complement byte of a signed byte.
pub open spec fn byte_of_i8(x: i8) -> u8 {
    if x >= 0 {
        x as u8
    } else {
        (x + 256) as u8
    }
}

/// The signed byte whose two's-complement byte is `b`.
pub open spec fn i8_of_byte(b: u8) -> i8 {
    if b < 128 {
        b as i8
    } else {
        (b - 256) as i8
    }
}

/// A presence byte, then the payload if present.
pub open spec fn spec_opt(present: bool, payload: Seq<u8>) -> Seq<u8> {
    if present {
        seq![1u8] + payload
    } else {
        seq![0u8]
    }
}

/// The payload bytes of a value.
pub open spec fn spec_entry(v: MetaValue) -> Seq<u8> {
    match v {
        MetaValue::Byte(x) => seq![byte_of_i8(x)],
        MetaValue::VarInt(x) => spec_varint(x),
        MetaValue::Float(x) => be_bytes(x as nat, 4),
        MetaValue::String(s) => spec_string(encode_utf8(s)),
        MetaValue::Chat(s) => spec_string(encode_utf8(s)),
        MetaValue::OptChat(o) => match o {
            Some(s) => spec_opt(true, spec_string(encode_utf8(s))),
            None => spec_opt(false, Seq::empty()),
        },
        MetaValue::Slot(o) => spec_slot(o),
        MetaValue::Boolean(b) => seq![if b { 1u8 } else { 0u8 }],
        MetaValue::Rotation(a, b, c) => be_bytes(a as nat, 4) + be_bytes(b as nat, 4) + be_bytes(
            c as nat,
            4,
        ),
        MetaValue::Position(p) => be_bytes(pack_position(p), 8),
        MetaValue::OptPosition(o) => match o {
            Some(p) => spec_opt(true, be_bytes(pack_position(p), 8)),
            None => spec_opt(false, Seq::empty()),
        },
        MetaValue::Direction(d) => spec_varint(d.spec_id()),
        MetaValue::OptUuid(o) => match o {
            Some(u) => spec_opt(true, be_bytes(u as nat, 16)),
            None => spec_opt(false, Seq::empty()),
        },
        MetaValue::OptBlockId(o) => match o {
            Some(b) => spec_varint(b),
            None => spec_varint(0),
        },
        MetaValue::Nbt => Seq::empty(),
        MetaValue::Particle => Seq::empty(),
    }
}

impl MetaEntry {
    /// The entry's type tag.
    pub fn id(&self) -> (r: i32)
        ensures
            r == spec_tag(self@),
    {
        match self {
            MetaEntry::Byte(_) => 0,
            MetaEntry::VarInt(_) => 1,
            MetaEntry::Float(_) => 2,
            MetaEntry::String(_) => 3,
            MetaEntry::Chat(_) => 4,
            MetaEntry::OptChat(_) => 5,
            MetaEntry::Slot(_) => 6,
            MetaEntry::Boolean(_) => 7,
            MetaEntry::Rotation(_, _, _) => 8,
            MetaEntry::Position(_) => 9,
            MetaEntry::OptPosition(_) => 10,
            MetaEntry::Direction(_) => 11,
            MetaEntry::OptUuid(_) => 12,
            MetaEntry::OptBlockId(_) => 13,
            MetaEntry::Nbt => 14,
            MetaEntry::Particle => 15,
        }
    }

    /// The most bytes that the entry's payload can take.
    pub fn size(&self) -> (r: usize)
        requires
            spec_entry_size(self@) <= usize::MAX,
        ensures
            r == spec_entry_size(self@),
            writable(self@) ==> spec_entry(self@).len() <= r,
    {
        proof {
            if writable(self@) {
                lemma_entry_len(self@);
            }
        }
        match self {
            MetaEntry::Byte(_) => 1,
            MetaEntry::VarInt(_) => MAX_VAR_INT_SIZE,
            MetaEntry::Float(_) => 4,
            MetaEntry::String(s) => MAX_VAR_INT_SIZE + s.as_str().as_bytes().len(),
            MetaEntry::Chat(s) => MAX_VAR_INT_SIZE + s.as_str().as_bytes().len(),
            MetaEntry::OptChat(o) => match o {
                Some(s) => 1 + MAX_VAR_INT_SIZE + s.as_str().as_bytes().len(),
                None => MAX_VAR_INT_SIZE,
            },
            MetaEntry::Slot(_) => MAX_VAR_INT_SIZE + 3,
            MetaEntry::Boolean(_) => 1,
            MetaEntry::Rotation(_, _, _) => 12,
            MetaEntry::Position(_) => 8,
            MetaEntry::OptPosition(_) => 9,
            MetaEntry::Direction(_) => MAX_VAR_INT_SIZE,
            MetaEntry::OptUuid(_) => 17,
            MetaEntry::OptBlockId(_) => MAX_VAR_INT_SIZE,
            MetaEntry::Nbt => 0,
            MetaEntry::Particle => 0,
        }
    }
}

proof fn lemma_entry_len(v: MetaValue)
    requires
        writable(v),
    ensures
        spec_entry(v).len() <= spec_entry_size(v),
{
    crate::mctypes::lemma_varint_round_trip(0, Seq::empty());
    lemma_be_bytes_len(0, 4);
    match v {
        MetaValue::VarInt(x) => {
            crate::mctypes::lemma_varint_round_trip(x, Seq::empty());
            assert(spec_entry(v) == spec_varint(x));
            assert(spec_varint(x).len() <= 5);
        },
        MetaValue::Float(x) => lemma_be_bytes_len(x as nat, 4),
        MetaValue::String(s) => crate::mctypes::lemma_varint_round_trip(encode_utf8(s).len() as i32, Seq::empty()),
        MetaValue::Chat(s) => crate::mctypes::lemma_varint_round_trip(encode_utf8(s).len() as i32, Seq::empty()),
        MetaValue::OptChat(Some(s)) => crate::mctypes::lemma_varint_round_trip(encode_utf8(s).len() as i32, Seq::empty()),
        MetaValue::Slot(Some(st)) => crate::mctypes::lemma_varint_round_trip(st.item, Seq::empty()),
        MetaValue::Rotation(a, b, c) => {
            lemma_be_bytes_len(a as nat, 4);
            lemma_be_bytes_len(b as nat, 4);
            lemma_be_bytes_len(c as nat, 4);
        },
        MetaValue::Position(p) => lemma_be_bytes_len(pack_position(p), 8),
        MetaValue::OptPosition(Some(p)) => lemma_be_bytes_len(pack_position(p), 8),
        MetaValue::Direction(d) => crate::mctypes::lemma_varint_round_trip(d.spec_id(), Seq::empty()),
        MetaValue::OptUuid(Some(u)) => lemma_be_bytes_len(u as nat, 16),
        MetaValue::OptBlockId(Some(b)) => crate::mctypes::lemma_varint_round_trip(b, Seq::empty()),
        _ => {},
    }
}


impl Clone for MetaEntry {
    fn clone(&self) -> (r: MetaEntry)
        ensures
            r == *self,
    {
        match self {
            MetaEntry::Byte(x) => MetaEntry::Byte(*x),
            MetaEntry::VarInt(x) => MetaEntry::VarInt(*x),
            MetaEntry::Float(x) => MetaEntry::Float(*x),
            MetaEntry::String(x) => MetaEntry::String(x.clone()),
            MetaEntry::Chat(x) => MetaEntry::Chat(x.clone()),
            MetaEntry::OptChat(x) => MetaEntry::OptChat(
                match x {
                    Some(s) => Some(s.clone()),
                    None => None,
                },
            ),
            MetaEntry::Slot(x) => MetaEntry::Slot(*x),
            MetaEntry::Boolean(x) => MetaEntry::Boolean(*x),
            MetaEntry::Rotation(a, b, c) => MetaEntry::Rotation(*a, *b, *c),
            MetaEntry::Position(x) => MetaEntry::Position(*x),
            MetaEntry::OptPosition(x) => MetaEntry::OptPosition(*x),
            MetaEntry::Direction(x) => MetaEntry::Direction(*x),
            MetaEntry::OptUuid(x) => MetaEntry::OptUuid(*x),
            MetaEntry::OptBlockId(x) => MetaEntry::OptBlockId(*x),
            MetaEntry::Nbt => MetaEntry::Nbt,
            MetaEntry::Particle => MetaEntry::Particle,
        }
    }
}

/// Appends an entry's payload.
fn write_entry_to_buf(entry: &MetaEntry, buf: &mut Vec<u8>)
    requires
        writable(entry@),
    ensures
        final(buf)@ == old(buf)@ + spec_entry(entry@),
{
    match entry {
        MetaEntry::Byte(x) => {
            let b: u8 = if *x >= 0 {
                *x as u8
            } else {
                (*x as i16 + 256) as u8
            };
            buf.push(b);
        },
        MetaEntry::VarInt(x) => {
            put_var_int(buf, *x);
        },
        MetaEntry::Float(x) => put_u32_be(buf, *x),
        MetaEntry::String(x) => put_string(buf, x.as_str()),
        MetaEntry::Chat(x) => put_string(buf, x.as_str()),
        MetaEntry::OptChat(ox) => {
            if let Some(x) = ox {
                put_bool(buf, true);
                put_string(buf, x.as_str());
            } else {
                put_bool(buf, false);
            }
        },
        MetaEntry::Slot(x) => put_slot(buf, x),
        MetaEntry::Boolean(x) => put_bool(buf, *x),
        MetaEntry::Rotation(x, y, z) => {
            put_u32_be(buf, *x);
            put_u32_be(buf, *y);
            put_u32_be(buf, *z);
        },
        MetaEntry::Position(x) => put_block_position(buf, x),
        MetaEntry::OptPosition(ox) => {
            if let Some(x) = ox {
                put_bool(buf, true);
                put_block_position(buf, x);
            } else {
                put_bool(buf, false);
            }
        },
        MetaEntry::Direction(x) => {
            put_var_int(buf, x.id());
        },
        MetaEntry::OptUuid(ox) => {
            if let Some(x) = ox {
                put_bool(buf, true);
                put_uuid(buf, *x);
            } else {
                put_bool(buf, false);
            }
        },
        MetaEntry::OptBlockId(ox) => {
            // An absent block id is written as 0, the id of air.
            if let Some(x) = ox {
                put_var_int(buf, *x);
            } else {
                put_var_int(buf, 0);
            }
        },
        MetaEntry::Nbt => {},
        MetaEntry::Particle => {},
    }
    assert(final(buf)@ =~= old(buf)@ + spec_entry(entry@));
}


/// The entries of an entity's metadata, in a `hashbrown` map keyed by
/// index.
#[verifier::external_body]
pub struct MetaTable {
    map: hashbrown::HashMap<u8, MetaEntry>,
}

/// What a metadata map holds: the value at each of its indices.
pub uninterp spec fn table_contents(t: MetaTable) -> Map<u8, MetaValue>;

/// The map with no entries.
pub open spec fn no_entries() -> Map<u8, MetaValue> {
    Map::empty()
}

/// Relies on `hashbrown::HashMap::new`: a map with no entries.
#[verifier::external_body]
fn table_new() -> (r: MetaTable)
    ensures
        table_contents(r) == no_entries(),
{
    MetaTable { map: hashbrown::HashMap::new() }
}

/// Relies on `hashbrown::HashMap::insert`: afterwards `k` holds `e`,
/// replacing any earlier value, and every other index is unchanged.
#[verifier::external_body]
fn table_insert(t: &mut MetaTable, k: u8, e: MetaEntry)
    ensures
        table_contents(*final(t)) == table_contents(*old(t)).insert(k, e@),
{
    t.map.insert(k, e);
}

/// Relies on `hashbrown::HashMap::get`: the value at `k`, if there is one.
#[verifier::external_body]
fn table_get(t: &MetaTable, k: u8) -> (r: Option<&MetaEntry>)
    ensures
        r is Some <==> table_contents(*t).contains_key(k),
        r matches Some(e) ==> e@ == table_contents(*t)[k],
{
    t.map.get(&k)
}

/// The metadata of an entity: at most one value for each index 0 to 254.
pub struct EntityMetadata {
    values: MetaTable,
}

/// The value at an optional table slot.
pub open spec fn slot_view(o: Option<MetaEntry>) -> Option<MetaValue> {
    match o {
        Some(e) => Some(e@),
        None => None,
    }
}

/// The bytes of the entries at indices `k` and above, lowest index first.
pub open spec fn spec_entries_from(slots: Seq<Option<MetaValue>>, k: nat) -> Seq<u8>
    decreases 255 - k,
{
    if k >= 255 || k >= slots.len() {
        Seq::empty()
    } else {
        let rest = spec_entries_from(slots, k + 1);
        match slots[k as int] {
            Some(v) => seq![k as u8] + spec_varint(spec_tag(v)) + spec_entry(v) + rest,
            None => rest,
        }
    }
}

/// The bytes of a whole record: every entry, then the end marker.
pub open spec fn spec_metadata(slots: Seq<Option<MetaValue>>) -> Seq<u8> {
    spec_entries_from(slots, 0) + seq![0xFFu8]
}

/// The size bound of the entries at indices `k` and above.
pub open spec fn spec_size_from(slots: Seq<Option<MetaValue>>, k: nat) -> nat
    decreases 255 - k,
{
    if k >= 255 || k >= slots.len() {
        0
    } else {
        let rest = spec_size_from(slots, k + 1);
        match slots[k as int] {
            Some(v) => 1 + 5 + spec_entry_size(v) + rest,
            None => rest,
        }
    }
}

/// The table holds only values that the encoder can write.
pub open spec fn all_writable(slots: Seq<Option<MetaValue>>) -> bool {
    forall|i: int| 0 <= i < slots.len() ==> (#[trigger] slots[i] matches Some(v) ==> writable(v))
}

impl EntityMetadata {
    /// Every index in use is below the end marker.
    pub closed spec fn wf(&self) -> bool {
        forall|k: u8| #[trigger] table_contents(self.values).contains_key(k) ==> k < 255
    }

    /// The value at each index, 0 to 254.
    pub closed spec fn slots(&self) -> Seq<Option<MetaValue>> {
        Seq::new(
            255,
            |i: int|
                if table_contents(self.values).contains_key(i as u8) {
                    Some(table_contents(self.values)[i as u8])
                } else {
                    None
                },
        )
    }

    /// Metadata with no entries.
    pub fn new() -> (r: EntityMetadata)
        ensures
            r.wf(),
            r.slots() == empty_slots(),
    {
        let r = EntityMetadata { values: table_new() };
        assert(r.slots() =~= empty_slots());
        r
    }

    /// Sets the value at `index`, replacing any value that was there.
    pub fn set(&mut self, index: u8, entry: MetaEntry)
        requires
            old(self).wf(),
            index < 255,
        ensures
            final(self).wf(),
            final(self).slots() == old(self).slots().update(index as int, Some(entry@)),
    {
        let ghost v = entry@;
        table_insert(&mut self.values, index, entry);
        assert(self.slots() =~= old(self).slots().update(index as int, Some(v)));
    }

    /// The entry at `index`, if any.
    pub fn get(&self, index: u8) -> (r: Option<&MetaEntry>)
        requires
            self.wf(),
        ensures
            index < 255 ==> slot_view(
                match r {
                    Some(e) => Some(*e),
                    None => None,
                },
            ) == self.slots()[index as int],
            index >= 255 ==> r is None,
    {
        if index == END_MARKER {
            return None;
        }
        table_get(&self.values, index)
    }

    /// This metadata with the given entries added in order, a later entry
    /// replacing an earlier one at the same index.
    pub fn with(self, values: &[(u8, MetaEntry)]) -> (r: EntityMetadata)
        requires
            self.wf(),
            forall|i: int| 0 <= i < values@.len() ==> (#[trigger] values@[i]).0 < 255,
        ensures
            r.wf(),
            r.slots() == with_all(self.slots(), values@, values@.len() as nat),
    {
        let mut meta = self;
        let mut i: usize = 0;
        while i < values.len()
            invariant
                meta.wf(),
                i <= values@.len(),
                forall|j: int| 0 <= j < values@.len() ==> (#[trigger] values@[j]).0 < 255,
                meta.slots() == with_all(self.slots(), values@, i as nat),
            decreases values@.len() - i,
        {
            let (index, entry) = &values[i];
            let e = entry.clone();
            meta.set(*index, e);
            i = i + 1;
        }
        meta
    }

    /// A bound on the encoded size: one byte for the end marker and, per
    /// entry, an index byte, the widest tag and the entry's payload bound.
    pub fn size(&self) -> (r: usize)
        requires
            self.wf(),
            spec_size_from(self.slots(), 0) < usize::MAX,
        ensures
            r == 1 + spec_size_from(self.slots(), 0),
            all_writable(self.slots()) ==> spec_metadata(self.slots()).len() <= r,
    {
        let mut count: usize = 1;
        let mut k: usize = 255;
        proof {
            if all_writable(self.slots()) {
                lemma_size_bound(self.slots(), 0);
            }
            lemma_size_mono(self.slots(), 0);
        }
        while k > 0
            invariant
                self.wf(),
                k <= 255,
                spec_size_from(self.slots(), 0) < usize::MAX,
                count == 1 + spec_size_from(self.slots(), k as nat),
            decreases k,
        {
            k = k - 1;
            proof {
                lemma_size_mono(self.slots(), 0);
                lemma_size_prefix(self.slots(), k as nat);
            }
            match table_get(&self.values, k as u8) {
                Some(entry) => {
                    assert(self.slots()[k as int] == Some(entry@));
                    let sz = entry.size();
                    count = count + 1 + MAX_VAR_INT_SIZE + sz;
                },
                None => {},
            }
        }
        count
    }
}

impl Default for EntityMetadata {
    fn default() -> (r: EntityMetadata)
        ensures
            r.wf(),
            r.slots() == empty_slots(),
    {
        let r = EntityMetadata::new();
        assert(r.slots() =~= empty_slots());
        r
    }
}

/// The table after the first `n` of `values` are set in order.
pub open spec fn with_all(slots: Seq<Option<MetaValue>>, values: Seq<(u8, MetaEntry)>, n: nat) -> Seq<Option<MetaValue>>
    decreases n,
{
    if n == 0 || n > values.len() {
        slots
    } else {
        let (k, e) = values[n - 1];
        with_all(slots, values, (n - 1) as nat).update(k as int, Some(e@))
    }
}

proof fn lemma_size_mono(slots: Seq<Option<MetaValue>>, k: nat)
    ensures
        forall|j: nat| k <= j ==> #[trigger] spec_size_from(slots, j) <= spec_size_from(slots, k),
    decreases 255 - k,
{
    if k < 255 && k < slots.len() {
        lemma_size_mono(slots, k + 1);
    }
}

proof fn lemma_size_prefix(slots: Seq<Option<MetaValue>>, k: nat)
    requires
        k < 255,
        slots.len() == 255,
    ensures
        spec_size_from(slots, k) == spec_size_from(slots, k + 1) + match slots[k as int] {
            Some(v) => 6 + spec_entry_size(v),
            None => 0,
        },
{
}

proof fn lemma_size_bound(slots: Seq<Option<MetaValue>>, k: nat)
    requires
        all_writable(slots),
    ensures
        spec_entries_from(slots, k).len() <= spec_size_from(slots, k),
    decreases 255 - k,
{
    if k < 255 && k < slots.len() {
        lemma_size_bound(slots, k + 1);
        match slots[k as int] {
            Some(v) => {
                assert(writable(v));
                lemma_entry_len(v);
                crate::mctypes::lemma_varint_round_trip(spec_tag(v), Seq::empty());
            },
            None => {},
        }
    }
}

/// Writes the whole record: each entry as index byte, VarInt type tag and
/// payload, lowest index first, then the end marker.
pub fn put_metadata(buf: &mut Vec<u8>, meta: &EntityMetadata)
    requires
        meta.wf(),
        all_writable(meta.slots()),
    ensures
        final(buf)@ == old(buf)@ + spec_metadata(meta.slots()),
{
    let mut k: usize = 0;
    while k < 255
        invariant
            meta.wf(),
            k <= 255,
            all_writable(meta.slots()),
            buf@ + spec_entries_from(meta.slots(), k as nat) == old(buf)@ + spec_entries_from(
                meta.slots(),
                0,
            ),
        decreases 255 - k,
    {
        let ghost before = buf@;
        match table_get(&meta.values, k as u8) {
            Some(entry) => {
                assert(meta.slots()[k as int] == Some(entry@));
                assert(writable(entry@));
                buf.push(k as u8);
                put_var_int(buf, entry.id());
                write_entry_to_buf(entry, buf);
                assert(buf@ + spec_entries_from(meta.slots(), (k + 1) as nat) =~= before
                    + spec_entries_from(meta.slots(), k as nat));
            },
            None => {
                assert(meta.slots()[k as int] is None);
            },
        }
        k = k + 1;
    }
    buf.push(END_MARKER);
    assert(buf@ =~= old(buf)@ + spec_metadata(meta.slots()));
}


/// Reads three four-byte words.
pub open spec fn parse_rotation(s: Seq<u8>) -> Result<(MetaValue, nat), McTypeError> {
    if s.len() < 12 {
        Err(McTypeError::NotEnoughBytes)
    } else {
        match (parse_be(s, 4), parse_be(s.skip(4), 4), parse_be(s.skip(8), 4)) {
            (Ok((a, _)), Ok((b, _)), Ok((c, _))) => Ok(
                (MetaValue::Rotation(a as u32, b as u32, c as u32), 12),
            ),
            _ => Err(McTypeError::NotEnoughBytes),
        }
    }
}

/// Reads a presence byte and, if present, what `inner` reads after it.
pub open spec fn parse_present<T>(s: Seq<u8>, inner: Result<(T, nat), McTypeError>) -> Result<(Option<T>, nat), McTypeError> {
    match parse_bool(s) {
        Err(e) => Err(e),
        Ok((false, n)) => Ok((None, n)),
        Ok((true, n)) => match inner {
            Ok((v, m)) => Ok((Some(v), n + m)),
            Err(e) => Err(e),
        },
    }
}

/// Reads the payload of a value with type tag `tag`; item ids
/// `0..item_count` are known. Blob and particle payloads have no defined
/// form and are refused with their own error.
pub open spec fn parse_entry(tag: i32, s: Seq<u8>, item_count: i32) -> Result<(MetaValue, nat), McTypeError> {
    if tag == 0 {
        if s.len() == 0 {
            Err(McTypeError::NotEnoughBytes)
        } else {
            Ok((MetaValue::Byte(i8_of_byte(s[0])), 1))
        }
    } else if tag == 1 {
        match parse_varint(s) {
            Ok((v, n)) => Ok((MetaValue::VarInt(v), n)),
            Err(e) => Err(e),
        }
    } else if tag == 2 {
        match parse_be(s, 4) {
            Ok((v, n)) => Ok((MetaValue::Float(v as u32), n)),
            Err(e) => Err(e),
        }
    } else if tag == 3 {
        match parse_string(s) {
            Ok((v, n)) => Ok((MetaValue::String(v), n)),
            Err(e) => Err(e),
        }
    } else if tag == 4 {
        match parse_string(s) {
            Ok((v, n)) => Ok((MetaValue::Chat(v), n)),
            Err(e) => Err(e),
        }
    } else if tag == 5 {
        match parse_present(s, parse_string(s.skip(1))) {
            Ok((v, n)) => Ok((MetaValue::OptChat(v), n)),
            Err(e) => Err(e),
        }
    } else if tag == 6 {
        match parse_slot(s, item_count) {
            Ok((v, n)) => Ok((MetaValue::Slot(v), n)),
            Err(e) => Err(e),
        }
    } else if tag == 7 {
        match parse_bool(s) {
            Ok((v, n)) => Ok((MetaValue::Boolean(v), n)),
            Err(e) => Err(e),
        }
    } else if tag == 8 {
        parse_rotation(s)
    } else if tag == 9 {
        match parse_block_position(s) {
            Ok((v, n)) => Ok((MetaValue::Position(v), n)),
            Err(e) => Err(e),
        }
    } else if tag == 10 {
        match parse_present(s, parse_block_position(s.skip(1))) {
            Ok((v, n)) => Ok((MetaValue::OptPosition(v), n)),
            Err(e) => Err(e),
        }
    } else if tag == 11 {
        match parse_varint(s) {
            Ok((v, n)) => match Direction::spec_from_id(v) {
                Some(d) => Ok((MetaValue::Direction(d), n)),
                None => Err(McTypeError::InvalidDirection(v)),
            },
            Err(e) => Err(e),
        }
    } else if tag == 12 {
        match parse_present(s, parse_be(s.skip(1), 16)) {
            Ok((v, n)) => Ok(
                (
                    MetaValue::OptUuid(
                        match v {
                            Some(u) => Some(u as u128),
                            None => None,
                        },
                    ),
                    n,
                ),
            ),
            Err(e) => Err(e),
        }
    } else if tag == 13 {
        match parse_varint(s) {
            Ok((v, n)) => Ok((MetaValue::OptBlockId(if v == 0 { None } else { Some(v) }), n)),
            Err(e) => Err(e),
        }
    } else if tag == 14 || tag == 15 {
        Err(McTypeError::UnsupportedMetadataType(tag))
    } else {
        Err(McTypeError::UnknownMetadataType(tag))
    }
}

/// Reads entries into `acc` until the end marker; gives the table and the
/// number of bytes read.
pub open spec fn parse_entries(s: Seq<u8>, acc: Seq<Option<MetaValue>>, item_count: i32) -> Result<(Seq<Option<MetaValue>>, nat), McTypeError>
    decreases s.len(),
{
    if s.len() == 0 {
        Err(McTypeError::NotEnoughBytes)
    } else if s[0] == 0xFF {
        Ok((acc, 1))
    } else {
        match parse_varint(s.skip(1)) {
            Err(e) => Err(e),
            Ok((tag, m)) => match parse_entry(tag, s.skip((1 + m) as int), item_count) {
                Err(e) => Err(e),
                Ok((v, k)) => {
                    if 1 + m + k > s.len() {
                        Err(McTypeError::NotEnoughBytes)
                    } else {
                        match parse_entries(
                            s.skip((1 + m + k) as int),
                            acc.update(s[0] as int, Some(v)),
                            item_count,
                        ) {
                            Ok((t, j)) => Ok((t, 1 + m + k + j)),
                            Err(e) => Err(e),
                        }
                    }
                },
            },
        }
    }
}

/// The empty table.
pub open spec fn empty_slots() -> Seq<Option<MetaValue>> {
    Seq::new(255, |i: int| None)
}

proof fn lemma_skip_skip(s: Seq<u8>, a: int, b: int)
    requires
        0 <= a,
        0 <= b,
        a + b <= s.len(),
    ensures
        s.skip(a).skip(b) =~= s.skip(a + b),
{
}

/// Reads the payload of an entry with type tag `tag`.
fn read_entry(r: &mut ByteReader, tag: i32, item_count: i32) -> (res: Result<MetaEntry, McTypeError>)
    requires
        old(r).wf(),
    ensures
        final(r).wf(),
        match parse_entry(tag, old(r)@, item_count) {
            Ok((v, n)) => res matches Ok(e) && e@ == v && final(r)@ == old(r)@.skip(n as int),
            Err(e) => res == Err::<MetaEntry, McTypeError>(e),
        },
        is_rest_of(old(r)@, final(r)@),
{
    let ghost s = r@;
    proof {
        assert(s =~= s.skip(0));
        lemma_parse_within(s, item_count);
        if s.len() > 0 {
            lemma_parse_within(s.skip(1), item_count);
        }
    }
    if tag == 0 {
        let b = r.try_get_u8()?;
        let x: i8 = if b < 128 {
            b as i8
        } else {
            (b as i16 - 256) as i8
        };
        assert(s.drop_first() =~= s.skip(1));
        Ok(MetaEntry::Byte(x))
    } else if tag == 1 {
        Ok(MetaEntry::VarInt(r.try_get_var_int()?))
    } else if tag == 2 {
        Ok(MetaEntry::Float(r.try_get_u32_be()?))
    } else if tag == 3 {
        Ok(MetaEntry::String(r.try_get_string()?))
    } else if tag == 4 {
        Ok(MetaEntry::Chat(r.try_get_string()?))
    } else if tag == 5 {
        if r.try_get_bool()? {
            let ghost mid = r@;
            let x = match r.try_get_string() {
                Ok(x) => x,
                Err(e) => {
                    proof {
                        lemma_rest_trans(s, mid, r@);
                    }
                    return Err(e);
                },
            };
            proof {
                lemma_skip_skip(s, 1, (s.len() - 1 - r@.len()) as int);
                lemma_rest_trans(s, mid, r@);
            }
            Ok(MetaEntry::OptChat(Some(x)))
        } else {
            Ok(MetaEntry::OptChat(None))
        }
    } else if tag == 6 {
        Ok(MetaEntry::Slot(r.try_get_slot(item_count)?))
    } else if tag == 7 {
        Ok(MetaEntry::Boolean(r.try_get_bool()?))
    } else if tag == 8 {
        if r.remaining() < 12 {
            assert(s =~= s.skip(0));
            return Err(McTypeError::NotEnoughBytes);
        }
        let a = r.try_get_u32_be()?;
        let ghost m1 = r@;
        let b = match r.try_get_u32_be() {
            Ok(b) => b,
            Err(e) => {
                return Err(e);
            },
        };
        let ghost m2 = r@;
        let c = match r.try_get_u32_be() {
            Ok(c) => c,
            Err(e) => {
                proof {
                    lemma_rest_trans(s, m1, m2);
                }
                return Err(e);
            },
        };
        proof {
            lemma_skip_skip(s, 4, 4);
            lemma_skip_skip(s, 8, 4);
            lemma_rest_trans(s, m1, m2);
            lemma_rest_trans(s, m2, r@);
        }
        Ok(MetaEntry::Rotation(a, b, c))
    } else if tag == 9 {
        Ok(MetaEntry::Position(r.try_get_block_position()?))
    } else if tag == 10 {
        if r.try_get_bool()? {
            let ghost mid = r@;
            let p = match r.try_get_block_position() {
                Ok(p) => p,
                Err(e) => {
                    return Err(e);
                },
            };
            proof {
                lemma_skip_skip(s, 1, 8);
                lemma_rest_trans(s, mid, r@);
            }
            Ok(MetaEntry::OptPosition(Some(p)))
        } else {
            Ok(MetaEntry::OptPosition(None))
        }
    } else if tag == 11 {
        let id = r.try_get_var_int()?;
        match Direction::from_id(id) {
            Some(d) => Ok(MetaEntry::Direction(d)),
            None => Err(McTypeError::InvalidDirection(id)),
        }
    } else if tag == 12 {
        if r.try_get_bool()? {
            let ghost mid = r@;
            let u = match r.try_get_uuid() {
                Ok(u) => u,
                Err(e) => {
                    return Err(e);
                },
            };
            proof {
                lemma_skip_skip(s, 1, 16);
                lemma_rest_trans(s, mid, r@);
            }
            Ok(MetaEntry::OptUuid(Some(u)))
        } else {
            Ok(MetaEntry::OptUuid(None))
        }
    } else if tag == 13 {
        let v = r.try_get_var_int()?;
        if v == 0 {
            Ok(MetaEntry::OptBlockId(None))
        } else {
            Ok(MetaEntry::OptBlockId(Some(v)))
        }
    } else if tag == 14 || tag == 15 {
        Err(McTypeError::UnsupportedMetadataType(tag))
    } else {
        Err(McTypeError::UnknownMetadataType(tag))
    }
}

/// Reads a whole record up to and including its end marker; entry item
/// ids `0..item_count` are known. A later entry at an index replaces an
/// earlier one.
pub fn try_get_metadata(r: &mut ByteReader, item_count: i32) -> (res: Result<EntityMetadata, McTypeError>)
    requires
        old(r).wf(),
    ensures
        final(r).wf(),
        match parse_entries(old(r)@, empty_slots(), item_count) {
            Ok((t, n)) => res matches Ok(m) && m.wf() && m.slots() == t && final(r)@ == old(r)@.skip(
                n as int,
            ),
            Err(e) => res == Err::<EntityMetadata, McTypeError>(e),
        },
        is_rest_of(old(r)@, final(r)@),
{
    let ghost s0 = r@;
    let mut meta = EntityMetadata::new();
    assert(meta.slots() =~= empty_slots());
    assert(s0.skip(0) =~= s0);
    loop
        invariant
            r.wf(),
            meta.wf(),
            s0 == old(r)@,
            r@.len() <= s0.len(),
            r@ == s0.skip(s0.len() - r@.len()),
            step_agrees(s0, r@, meta.slots(), item_count),
        decreases r@.len(),
    {
        let ghost cur = r@;
        let ghost slots = meta.slots();
        let index = match r.try_get_u8() {
            Ok(i) => i,
            Err(e) => {
                return Err(e);
            },
        };
        if index == END_MARKER {
            proof {
                lemma_skip_skip(s0, s0.len() - cur.len(), 1);
            }
            return Ok(meta);
        }
        assert(r@ =~= cur.skip(1));
        let ghost after_index = r@;
        let tag = match r.try_get_var_int() {
            Ok(t) => t,
            Err(e) => {
                proof {
                    lemma_rest_trans(cur, after_index, r@);
                    lemma_rest_trans(s0, cur, r@);
                }
                return Err(e);
            },
        };
        let ghost m: int = match parse_varint(cur.skip(1)) {
            Ok((_, m)) => m as int,
            Err(_) => 0,
        };
        proof {
            lemma_parse_within(cur.skip(1), item_count);
            lemma_skip_skip(cur, 1, m);
        }
        let ghost mid = r@;
        let entry = read_entry(r, tag, item_count);
        let entry = match entry {
            Ok(e) => e,
            Err(e) => {
                proof {
                    lemma_rest_trans(cur, after_index, mid);
                    lemma_rest_trans(cur, mid, r@);
                    lemma_rest_trans(s0, cur, r@);
                }
                return Err(e);
            },
        };
        let ghost k: int = match parse_entry(tag, mid, item_count) {
            Ok((_, k)) => k as int,
            Err(_) => 0,
        };
        proof {
            lemma_entry_within(tag, mid, item_count);
            lemma_skip_skip(cur, 1 + m, k);
            lemma_skip_skip(s0, s0.len() - cur.len(), 1 + m + k);
        }
        meta.set(index, entry);
        proof {
            lemma_step(s0, cur, slots, item_count, tag, m as nat, entry@, k as nat);
        }
    }
}

/// Reading the whole of `s0` agrees with reading `cur`, the rest of it, into
/// the table `slots` built so far.
pub open spec fn step_agrees(s0: Seq<u8>, cur: Seq<u8>, slots: Seq<Option<MetaValue>>, item_count: i32) -> bool {
    match parse_entries(cur, slots, item_count) {
        Ok((t, n)) => parse_entries(s0, empty_slots(), item_count) == Ok::<(Seq<Option<MetaValue>>, nat), McTypeError>(
            (t, (n + s0.len() - cur.len()) as nat),
        ),
        Err(e) => parse_entries(s0, empty_slots(), item_count) == Err::<(Seq<Option<MetaValue>>, nat), McTypeError>(e),
    }
}

proof fn lemma_entry_within(tag: i32, s: Seq<u8>, item_count: i32)
    ensures
        parse_entry(tag, s, item_count) matches Ok((_, k)) ==> 1 <= k <= s.len(),
{
    lemma_parse_within(s, item_count);
    if s.len() > 0 {
        lemma_parse_within(s.skip(1), item_count);
    }
}

proof fn lemma_step(
    s0: Seq<u8>,
    cur: Seq<u8>,
    slots: Seq<Option<MetaValue>>,
    item_count: i32,
    tag: i32,
    m: nat,
    v: MetaValue,
    k: nat,
)
    requires
        cur.len() > 0,
        cur[0] != 0xFF,
        cur.len() <= s0.len(),
        step_agrees(s0, cur, slots, item_count),
        parse_varint(cur.skip(1)) matches Ok((t, mm)) && t == tag && mm == m,
        parse_entry(tag, cur.skip((1 + m) as int), item_count) == Ok::<(MetaValue, nat), McTypeError>((v, k)),
        1 + m + k <= cur.len(),
    ensures
        step_agrees(s0, cur.skip((1 + m + k) as int), slots.update(cur[0] as int, Some(v)), item_count),
{
}


/// What a value reads back as: strings as their bytes taken one character
/// each, positions as the unpacking of their packed word, and a block id
/// of 0 as no block id (the wire form of the two is the same).
pub open spec fn canonical(v: MetaValue) -> MetaValue {
    match v {
        MetaValue::String(s) => MetaValue::String(latin1(encode_utf8(s))),
        MetaValue::Chat(s) => MetaValue::Chat(latin1(encode_utf8(s))),
        MetaValue::OptChat(Some(s)) => MetaValue::OptChat(Some(latin1(encode_utf8(s)))),
        MetaValue::Position(p) => MetaValue::Position(unpack_position(pack_position(p))),
        MetaValue::OptPosition(Some(p)) => MetaValue::OptPosition(
            Some(unpack_position(pack_position(p))),
        ),
        MetaValue::OptBlockId(Some(b)) => if b == 0 {
            MetaValue::OptBlockId(None)
        } else {
            v
        },
        _ => v,
    }
}

/// A value that the encoder can write and the decoder can read back: its
/// strings are at most 65536 bytes and its slot's item id is known.
pub open spec fn round_trips(v: MetaValue, item_count: i32) -> bool {
    &&& writable(v)
    &&& match v {
        MetaValue::String(s) => encode_utf8(s).len() <= 65536,
        MetaValue::Chat(s) => encode_utf8(s).len() <= 65536,
        MetaValue::OptChat(Some(s)) => encode_utf8(s).len() <= 65536,
        MetaValue::Slot(Some(st)) => 0 <= st.item < item_count,
        _ => true,
    }
}

proof fn lemma_pow256_values()
    ensures
        pow256(4) == 0x1_0000_0000,
        pow256(8) == 0x1_0000_0000_0000_0000,
        pow256(16) == 0x1_0000_0000_0000_0000_0000_0000_0000_0000,
{
    reveal_with_fuel(pow256, 17);
}

proof fn lemma_byte_read_back(x: i8, rest: Seq<u8>)
    ensures
        parse_entry(0, seq![byte_of_i8(x)] + rest, 0) == Ok::<(MetaValue, nat), McTypeError>(
            (MetaValue::Byte(x), 1),
        ),
{
    assert(i8_of_byte(byte_of_i8(x)) == x);
}

proof fn lemma_word_read_back(x: u32, rest: Seq<u8>)
    ensures
        parse_be(be_bytes(x as nat, 4) + rest, 4) == Ok::<(nat, nat), McTypeError>((x as nat, 4)),
        be_bytes(x as nat, 4).len() == 4,
{
    lemma_pow256_values();
    lemma_be_read_back(x as nat, 4, rest);
    lemma_be_bytes_len(x as nat, 4);
    vstd::arithmetic::div_mod::lemma_small_mod(x as nat, pow256(4));
}

proof fn lemma_optional_read_back<T>(
    present: bool,
    payload: Seq<u8>,
    rest: Seq<u8>,
    inner: Result<(T, nat), McTypeError>,
    val: T,
)
    requires
        present ==> inner == Ok::<(T, nat), McTypeError>((val, payload.len())),
    ensures
        parse_present(spec_opt(present, payload) + rest, inner) == Ok::<(Option<T>, nat), McTypeError>(
            (if present { Some(val) } else { None }, spec_opt(present, payload).len()),
        ),
{
    lemma_bool_read_back(present, if present { payload + rest } else { rest });
    if present {
        assert(spec_opt(present, payload) + rest =~= seq![1u8] + (payload + rest));
    } else {
        assert(spec_opt(present, payload) + rest =~= seq![0u8] + rest);
    }
}

proof fn lemma_entry_read_back(v: MetaValue, rest: Seq<u8>, item_count: i32)
    requires
        round_trips(v, item_count),
    ensures
        parse_entry(spec_tag(v), spec_entry(v) + rest, item_count) == Ok::<(MetaValue, nat), McTypeError>(
            (canonical(v), spec_entry(v).len()),
        ),
{
    let s = spec_entry(v) + rest;
    match v {
        MetaValue::Byte(x) => lemma_byte_read_back(x, rest),
        MetaValue::VarInt(x) => lemma_varint_round_trip(x, rest),
        MetaValue::Float(x) => lemma_word_read_back(x, rest),
        MetaValue::String(c) => lemma_string_read_back(encode_utf8(c), rest),
        MetaValue::Chat(c) => lemma_string_read_back(encode_utf8(c), rest),
        MetaValue::OptChat(o) => match o {
            Some(c) => {
                let b = spec_string(encode_utf8(c));
                assert(s.skip(1) =~= b + rest);
                lemma_string_read_back(encode_utf8(c), rest);
                lemma_optional_read_back(true, b, rest, parse_string(s.skip(1)), latin1(encode_utf8(c)));
            },
            None => {
                lemma_optional_read_back(false, Seq::empty(), rest, parse_string(s.skip(1)), Seq::<char>::empty());
            },
        },
        MetaValue::Slot(o) => lemma_slot_read_back(o, rest, item_count),
        MetaValue::Boolean(x) => lemma_bool_read_back(x, rest),
        MetaValue::Rotation(a, b, c) => {
            let ba = be_bytes(a as nat, 4);
            let bb = be_bytes(b as nat, 4);
            let bc = be_bytes(c as nat, 4);
            lemma_word_read_back(a, bb + bc + rest);
            lemma_word_read_back(b, bc + rest);
            lemma_word_read_back(c, rest);
            assert(s =~= ba + (bb + bc + rest));
            assert(s.skip(4) =~= bb + (bc + rest));
            assert(s.skip(8) =~= bc + rest);
        },
        MetaValue::Position(p) => {
            lemma_position_read_back(p, rest);
            lemma_be_bytes_len(pack_position(p), 8);
        },
        MetaValue::OptPosition(o) => match o {
            Some(p) => {
                let b = be_bytes(pack_position(p), 8);
                lemma_be_bytes_len(pack_position(p), 8);
                assert(s.skip(1) =~= b + rest);
                lemma_position_read_back(p, rest);
                lemma_optional_read_back(true, b, rest, parse_block_position(s.skip(1)), unpack_position(pack_position(p)));
            },
            None => {
                lemma_optional_read_back(false, Seq::empty(), rest, parse_block_position(s.skip(1)), BlockPosition { x: 0, y: 0, z: 0 });
            },
        },
        MetaValue::Direction(d) => lemma_varint_round_trip(d.spec_id(), rest),
        MetaValue::OptUuid(o) => match o {
            Some(u) => {
                let b = be_bytes(u as nat, 16);
                lemma_be_bytes_len(u as nat, 16);
                lemma_pow256_values();
                assert(s.skip(1) =~= b + rest);
                lemma_be_read_back(u as nat, 16, rest);
                vstd::arithmetic::div_mod::lemma_small_mod(u as nat, pow256(16));
                lemma_optional_read_back(true, b, rest, parse_be(s.skip(1), 16), u as nat);
            },
            None => {
                lemma_optional_read_back(false, Seq::empty(), rest, parse_be(s.skip(1), 16), 0nat);
            },
        },
        MetaValue::OptBlockId(o) => match o {
            Some(b) => lemma_varint_round_trip(b, rest),
            None => lemma_varint_round_trip(0, rest),
        },
        MetaValue::Nbt => {},
        MetaValue::Particle => {},
    }
}

/// The table `acc` with the values of `slots` at indices `k` and above put
/// in, as they read back.
pub open spec fn merged(slots: Seq<Option<MetaValue>>, acc: Seq<Option<MetaValue>>, k: nat) -> Seq<Option<MetaValue>> {
    Seq::new(
        255,
        |i: int|
            if i >= k && slots[i] is Some {
                Some(canonical(slots[i]->Some_0))
            } else {
                acc[i]
            },
    )
}

/// Every value of the table round-trips.
pub open spec fn all_round_trip(slots: Seq<Option<MetaValue>>, item_count: i32) -> bool {
    forall|i: int|
        0 <= i < slots.len() ==> (#[trigger] slots[i] matches Some(v) ==> round_trips(v, item_count))
}

#[verifier::rlimit(100)]
proof fn lemma_entries_read_back(
    slots: Seq<Option<MetaValue>>,
    acc: Seq<Option<MetaValue>>,
    k: nat,
    rest: Seq<u8>,
    item_count: i32,
)
    requires
        slots.len() == 255,
        acc.len() == 255,
        k <= 255,
        all_round_trip(slots, item_count),
    ensures
        parse_entries(spec_entries_from(slots, k) + seq![0xFFu8] + rest, acc, item_count)
            == Ok::<(Seq<Option<MetaValue>>, nat), McTypeError>(
            (merged(slots, acc, k), spec_entries_from(slots, k).len() + 1),
        ),
    decreases 255 - k,
{
    let tail = seq![0xFFu8] + rest;
    if k == 255 {
        assert(spec_entries_from(slots, k) + seq![0xFFu8] + rest =~= tail);
        assert(merged(slots, acc, k) =~= acc);
    } else {
        let from = spec_entries_from(slots, k + 1);
        match slots[k as int] {
            None => {
                lemma_entries_read_back(slots, acc, k + 1, rest, item_count);
                assert(merged(slots, acc, k + 1) =~= merged(slots, acc, k));
            },
            Some(v) => {
                assert(round_trips(v, item_count));
                let tag = spec_tag(v);
                let eb = spec_entry(v);
                let s = spec_entries_from(slots, k) + seq![0xFFu8] + rest;
                assert(s =~= seq![k as u8] + (spec_varint(tag) + (eb + (from + tail))));
                assert(s.skip(1) =~= spec_varint(tag) + (eb + (from + tail)));
                lemma_varint_round_trip(tag, eb + (from + tail));
                let m = spec_varint(tag).len();
                assert(s.skip((1 + m) as int) =~= eb + (from + tail));
                lemma_entry_read_back(v, from + tail, item_count);
                assert(s.skip((1 + m + eb.len()) as int) =~= from + seq![0xFFu8] + rest);
                let acc2 = acc.update(k as int, Some(canonical(v)));
                lemma_entries_read_back(slots, acc2, k + 1, rest, item_count);
                assert(merged(slots, acc2, k + 1) =~= merged(slots, acc, k));
            },
        }
    }
}

/// Decoding an encoded record gives back every entry at its index, each
/// value as it reads back (see `canonical`), and consumes exactly the record,
/// whatever follows it; the record ends with the end marker.
pub proof fn lemma_metadata_round_trip(meta: EntityMetadata, rest: Seq<u8>, item_count: i32)
    requires
        meta.wf(),
        all_round_trip(meta.slots(), item_count),
    ensures
        parse_entries(spec_metadata(meta.slots()) + rest, empty_slots(), item_count)
            == Ok::<(Seq<Option<MetaValue>>, nat), McTypeError>(
            (merged(meta.slots(), empty_slots(), 0), spec_metadata(meta.slots()).len()),
        ),
        spec_metadata(meta.slots()).last() == 0xFF,
{
    let slots = meta.slots();
    assert(spec_metadata(slots) + rest =~= spec_entries_from(slots, 0) + seq![0xFFu8] + rest);
    lemma_entries_read_back(slots, empty_slots(), 0, rest, item_count);
}


/// An entry whose type tag names no known kind stops decoding with
/// `UnknownMetadataType` carrying that tag, whatever bytes follow it.
pub proof fn lemma_unknown_tag_refused(index: u8, tag: i32, rest: Seq<u8>, item_count: i32)
    requires
        index != 0xFF,
        tag < 0 || tag > 15,
    ensures
        forall|acc: Seq<Option<MetaValue>>|
            #[trigger] parse_entries(seq![index] + spec_varint(tag) + rest, acc, item_count)
                == Err::<(Seq<Option<MetaValue>>, nat), McTypeError>(
                McTypeError::UnknownMetadataType(tag),
            ),
{
    let s = seq![index] + spec_varint(tag) + rest;
    assert(s.skip(1) =~= spec_varint(tag) + rest);
    lemma_varint_round_trip(tag, rest);
}


#[verifier::rlimit(100)]
proof fn lemma_entries_then(
    slots: Seq<Option<MetaValue>>,
    acc: Seq<Option<MetaValue>>,
    k: nat,
    tail: Seq<u8>,
    item_count: i32,
)
    requires
        slots.len() == 255,
        acc.len() == 255,
        k <= 255,
        all_round_trip(slots, item_count),
    ensures
        parse_entries(spec_entries_from(slots, k) + tail, acc, item_count) == match parse_entries(
            tail,
            merged(slots, acc, k),
            item_count,
        ) {
            Ok((t, j)) => Ok::<(Seq<Option<MetaValue>>, nat), McTypeError>(
                (t, spec_entries_from(slots, k).len() + j),
            ),
            Err(e) => Err(e),
        },
    decreases 255 - k,
{
    if k == 255 {
        assert(spec_entries_from(slots, k) + tail =~= tail);
        assert(merged(slots, acc, k) =~= acc);
    } else {
        let from = spec_entries_from(slots, k + 1);
        match slots[k as int] {
            None => {
                lemma_entries_then(slots, acc, k + 1, tail, item_count);
                assert(merged(slots, acc, k + 1) =~= merged(slots, acc, k));
            },
            Some(v) => {
                assert(round_trips(v, item_count));
                let tag = spec_tag(v);
                let eb = spec_entry(v);
                let s = spec_entries_from(slots, k) + tail;
                assert(s =~= seq![k as u8] + (spec_varint(tag) + (eb + (from + tail))));
                assert(s.skip(1) =~= spec_varint(tag) + (eb + (from + tail)));
                lemma_varint_round_trip(tag, eb + (from + tail));
                let m = spec_varint(tag).len();
                assert(s.skip((1 + m) as int) =~= eb + (from + tail));
                lemma_entry_read_back(v, from + tail, item_count);
                assert(s.skip((1 + m + eb.len()) as int) =~= from + tail);
                let acc2 = acc.update(k as int, Some(canonical(v)));
                lemma_entries_then(slots, acc2, k + 1, tail, item_count);
                assert(merged(slots, acc2, k + 1) =~= merged(slots, acc, k));
            },
        }
    }
}

/// After any run of well-formed entries, an entry whose type tag names no
/// known kind still stops decoding with `UnknownMetadataType` carrying that
/// tag; nothing after it is read as an entry.
pub proof fn lemma_unknown_tag_after_entries(
    meta: EntityMetadata,
    index: u8,
    tag: i32,
    rest: Seq<u8>,
    item_count: i32,
)
    requires
        meta.wf(),
        all_round_trip(meta.slots(), item_count),
        index != 0xFF,
        tag < 0 || tag > 15,
    ensures
        parse_entries(
            spec_entries_from(meta.slots(), 0) + (seq![index] + spec_varint(tag) + rest),
            empty_slots(),
            item_count,
        ) == Err::<(Seq<Option<MetaValue>>, nat), McTypeError>(
            McTypeError::UnknownMetadataType(tag),
        ),
{
    let tail = seq![index] + spec_varint(tag) + rest;
    lemma_entries_then(meta.slots(), empty_slots(), 0, tail, item_count);
    lemma_unknown_tag_refused(index, tag, rest, item_count);
    assert(parse_entries(tail, merged(meta.slots(), empty_slots(), 0), item_count)
        == Err::<(Seq<Option<MetaValue>>, nat), McTypeError>(McTypeError::UnknownMetadataType(tag)));
}

} // verus!
