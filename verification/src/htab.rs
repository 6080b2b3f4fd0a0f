//! The table of definitions: byte-string keys, each with one entry that is
//! either an integer or a run of bytes that the table owns.

use vstd::prelude::*;
use vstd::slice::slice_to_vec;
use vstd::utf8::*;

verus! {

/// What the table holds under one key, as a mathematical value.
pub enum Entry {
    /// An integer.
    Integer(i32),
    /// Bytes that the table does not interpret.
    Opaque(Seq<u8>),
}

impl Entry {
    /// The integer of an integer entry; zero for any other.
    pub open spec fn value(self) -> i32 {
        match self {
            Entry::Integer(value) => value,
            Entry::Opaque(_) => 0i32,
        }
    }

    /// The bytes of an opaque entry; none for any other.
    pub open spec fn opaque_value(self) -> Seq<u8> {
        match self {
            Entry::Integer(_) => Seq::empty(),
            Entry::Opaque(bytes) => bytes,
        }
    }

    /// The bytes of the entry read as UTF-8, if they are UTF-8.
    pub open spec fn opaque_value_str(self) -> Option<Seq<char>> {
        if valid_utf8(self.opaque_value()) {
            Some(decode_utf8(self.opaque_value()))
        } else {
            None
        }
    }
}

/// What the table holds under one key.
#[derive(Debug)]
pub enum Item {
    /// An integer.
    Integer(i32),
    /// A copy of bytes that the table does not interpret.
    Opaque(Vec<u8>),
}

impl View for Item {
    type V = Entry;

    open spec fn view(&self) -> Entry {
        match self {
            Item::Integer(value) => Entry::Integer(*value),
            Item::Opaque(bytes) => Entry::Opaque(bytes@),
        }
    }
}

/// Reads `bytes` as UTF-8 with `std::str::from_utf8`. The contract claims
/// what std documents of it: it succeeds on exactly the byte strings that
/// are well-formed UTF-8, and the text it then hands back is those same
/// bytes, so its characters encode to them.
#[verifier::external_body]
fn str_from_utf8(bytes: &[u8]) -> (r: Option<&str>)
    ensures
        r is Some <==> valid_utf8(bytes@),
        r matches Some(text) ==> encode_utf8(text@) == bytes@,
{
    match std::str::from_utf8(bytes) {
        Ok(text) => Some(text),
        Err(_) => None,
    }
}

impl Item {
    /// An integer entry.
    pub fn integer(value: i32) -> (r: Item)
        ensures
            r@ == Entry::Integer(value),
    {
        Item::Integer(value)
    }

    /// An opaque entry that owns `opaque_value`.
    pub fn opaque(opaque_value: Vec<u8>) -> (r: Item)
        ensures
            r@ == Entry::Opaque(opaque_value@),
    {
        Item::Opaque(opaque_value)
    }

    /// An opaque entry with a copy of the bytes of a foreign buffer, or with
    /// no bytes where there is no buffer.
    pub fn from_void(buffer: Option<&[u8]>) -> (r: Item)
        ensures
            r@ == Entry::Opaque(copied_bytes(buffer)),
    {
        let opaque_value = match buffer {
            Some(bytes) => slice_to_vec(bytes),
            None => Vec::new(),
        };
        Item::opaque(opaque_value)
    }

    /// The integer of an integer entry; zero for an opaque one.
    pub fn value(&self) -> (r: i32)
        ensures
            r == self@.value(),
    {
        match self {
            Item::Integer(value) => *value,
            Item::Opaque(_) => 0,
        }
    }

    /// The bytes of an opaque entry; none for an integer one.
    pub fn opaque_value(&self) -> (r: &[u8])
        ensures
            r@ == self@.opaque_value(),
    {
        match self {
            Item::Integer(_) => &[],
            Item::Opaque(bytes) => bytes.as_slice(),
        }
    }

    /// The bytes of the entry as text, if they are UTF-8.
    pub fn opaque_value_str(&self) -> (r: Option<&str>)
        ensures
            match r {
                Some(text) => self@.opaque_value_str() == Some(text@),
                None => self@.opaque_value_str() is None,
            },
    {
        let r = str_from_utf8(self.opaque_value());
        proof {
            if let Some(text) = r {
                encode_utf8_decode_utf8(text@);
            }
        }
        r
    }
}

/// Whether `key` can name an entry: a byte string that holds no NUL, so that
/// it can cross to a caller that ends its strings with one.
pub open spec fn is_key(key: Seq<u8>) -> bool {
    forall|i: int| 0 <= i < key.len() ==> key[i] != 0u8
}

proof fn lemma_scalar_bytes_nonzero(scalar: u32)
    by (bit_vector)
    requires
        scalar != 0,
    ensures
        (0 <= scalar <= 0x7F) ==> (scalar & 0x7F) as u8 != 0,
        0xC0 | ((scalar >> 6) & 0x1F) as u8 != 0,
        0xE0 | ((scalar >> 12) & 0x0F) as u8 != 0,
        0xF0 | ((scalar >> 18) & 0x7) as u8 != 0,
        0x80 | (scalar & 0x3F) as u8 != 0,
        0x80 | ((scalar >> 6) & 0x3F) as u8 != 0,
        0x80 | ((scalar >> 12) & 0x3F) as u8 != 0,
{
}

/// A text that holds no NUL character is a key once it is encoded as UTF-8.
pub proof fn lemma_text_without_nul_is_key(text: Seq<char>)
    requires
        !text.contains('\0'),
    ensures
        is_key(encode_utf8(text)),
    decreases text.len(),
{
    if text.len() > 0 {
        let rest = text.drop_first();
        assert(!rest.contains('\0')) by {
            if rest.contains('\0') {
                let i = choose|i: int| 0 <= i < rest.len() && rest[i] == '\0';
                assert(text[i + 1] == '\0');
            }
        }
        lemma_text_without_nul_is_key(rest);
        let first: char = text[0];
        let scalar = first as u32;
        assert(scalar != 0) by {
            char_u32_cast(first, scalar);
            char_u32_cast('\0', 0u32);
        }
        lemma_scalar_bytes_nonzero(scalar);
        char_is_scalar(first);
        let head = encode_scalar(scalar);
        let tail = encode_utf8(rest);
        assert(encode_utf8(text) == head + tail);
        assert forall|i: int| 0 <= i < head.len() implies head[i] != 0u8 by {}
    }
}

/// Whether `key` can name an entry.
pub fn is_valid_key(key: &[u8]) -> (r: bool)
    ensures
        r == is_key(key@),
{
    let n: usize = key.len();
    let mut i: usize = 0;
    while i < n
        invariant
            n == key@.len(),
            i <= n,
            forall|j: int| 0 <= j < i ==> key@[j] != 0u8,
        decreases n - i,
    {
        if key[i] == 0 {
            return false;
        }
        i += 1;
    }
    true
}

/// Whether two byte strings hold the same bytes.
fn bytes_eq(a: &[u8], b: &[u8]) -> (r: bool)
    ensures
        r == (a@ == b@),
{
    let n: usize = a.len();
    if n != b.len() {
        return false;
    }
    let mut i: usize = 0;
    while i < n
        invariant
            n == a@.len(),
            n == b@.len(),
            i <= n,
            forall|j: int| 0 <= j < i ==> a@[j] == b@[j],
        decreases n - i,
    {
        if a[i] != b[i] {
            return false;
        }
        i += 1;
    }
    assert(a@ =~= b@);
    true
}

/// One key of the table with its entry.
#[derive(Debug)]
struct Slot {
    key: Vec<u8>,
    item: Item,
}

/// The map that a run of slots stands for: a later slot overrides an
/// earlier one with the same key.
spec fn map_of(slots: Seq<Slot>) -> Map<Seq<u8>, Entry>
    decreases slots.len(),
{
    if slots.len() == 0 {
        Map::empty()
    } else {
        map_of(slots.drop_last()).insert(slots.last().key@, slots.last().item@)
    }
}

/// Whether no two slots share a key.
spec fn distinct_keys(slots: Seq<Slot>) -> bool {
    forall|i: int, j: int| 0 <= i < j < slots.len() ==> slots[i].key@ != slots[j].key@
}

proof fn lemma_front_has_distinct_keys(slots: Seq<Slot>)
    requires
        distinct_keys(slots),
        slots.len() > 0,
    ensures
        distinct_keys(slots.drop_last()),
{
    let front = slots.drop_last();
    assert forall|i: int, j: int| 0 <= i < j < front.len() implies front[i].key@
        != front[j].key@ by {
        assert(slots[i].key@ != slots[j].key@);
    }
}

proof fn lemma_map_of_domain(slots: Seq<Slot>, key: Seq<u8>)
    ensures
        map_of(slots).contains_key(key) <==> exists|i: int|
            0 <= i < slots.len() && slots[i].key@ == key,
    decreases slots.len(),
{
    if slots.len() > 0 {
        let front = slots.drop_last();
        lemma_map_of_domain(front, key);
        if map_of(front).contains_key(key) {
            let i = choose|i: int| 0 <= i < front.len() && front[i].key@ == key;
            assert(slots[i].key@ == key);
        }
        if slots.last().key@ == key {
            assert(slots[slots.len() - 1].key@ == key);
        }
        if exists|i: int| 0 <= i < slots.len() && slots[i].key@ == key {
            let i = choose|i: int| 0 <= i < slots.len() && slots[i].key@ == key;
            if i < slots.len() - 1 {
                assert(front[i].key@ == key);
            }
        }
    }
}

proof fn lemma_map_of_at(slots: Seq<Slot>, at: int)
    requires
        distinct_keys(slots),
        0 <= at < slots.len(),
    ensures
        map_of(slots).contains_key(slots[at].key@),
        map_of(slots)[slots[at].key@] == slots[at].item@,
    decreases slots.len(),
{
    let front = slots.drop_last();
    if at < slots.len() - 1 {
        lemma_front_has_distinct_keys(slots);
        lemma_map_of_at(front, at);
    }
}

proof fn lemma_map_of_len(slots: Seq<Slot>)
    requires
        distinct_keys(slots),
    ensures
        map_of(slots).dom().finite(),
        map_of(slots).len() == slots.len(),
    decreases slots.len(),
{
    if slots.len() > 0 {
        let front = slots.drop_last();
        lemma_front_has_distinct_keys(slots);
        lemma_map_of_len(front);
        lemma_map_of_domain(front, slots.last().key@);
        if map_of(front).contains_key(slots.last().key@) {
            let i = choose|i: int| 0 <= i < front.len() && front[i].key@ == slots.last().key@;
            assert(slots[i].key@ != slots[slots.len() - 1].key@);
        }
    }
}

proof fn lemma_map_of_replace(slots: Seq<Slot>, at: int, slot: Slot)
    requires
        distinct_keys(slots),
        0 <= at < slots.len(),
        slot.key@ == slots[at].key@,
    ensures
        distinct_keys(slots.update(at, slot)),
        map_of(slots.update(at, slot)) == map_of(slots).insert(slot.key@, slot.item@),
    decreases slots.len(),
{
    let after = slots.update(at, slot);
    assert(distinct_keys(after)) by {
        assert forall|i: int, j: int| 0 <= i < j < after.len() implies after[i].key@
            != after[j].key@ by {
            assert(slots[i].key@ != slots[j].key@);
        }
    }
    let front = slots.drop_last();
    if at == slots.len() - 1 {
        assert(after.drop_last() =~= front);
    } else {
        lemma_front_has_distinct_keys(slots);
        lemma_map_of_replace(front, at, slot);
        assert(after.drop_last() =~= front.update(at, slot));
    }
}

proof fn lemma_map_of_same(a: Seq<Slot>, b: Seq<Slot>)
    requires
        a.len() == b.len(),
        forall|i: int| 0 <= i < a.len() ==> a[i].key@ == b[i].key@ && a[i].item@ == b[i].item@,
    ensures
        map_of(a) == map_of(b),
    decreases a.len(),
{
    if a.len() > 0 {
        lemma_map_of_same(a.drop_last(), b.drop_last());
    }
}

/// The table of definitions. Its view is the map from each key to its
/// entry.
#[derive(Debug)]
pub struct HashTable {
    slots: Vec<Slot>,
}

impl View for HashTable {
    type V = Map<Seq<u8>, Entry>;

    closed spec fn view(&self) -> Map<Seq<u8>, Entry> {
        map_of(self.slots@)
    }
}

impl HashTable {
    #[verifier::type_invariant]
    spec fn well_formed(&self) -> bool {
        &&& distinct_keys(self.slots@)
        &&& forall|i: int| 0 <= i < self.slots@.len() ==> is_key(#[trigger] self.slots@[i].key@)
    }

    /// A table that holds nothing.
    pub fn new() -> (r: HashTable)
        ensures
            r@ == Map::<Seq<u8>, Entry>::empty(),
    {
        HashTable { slots: Vec::new() }
    }

    /// The index of the slot of `key`, if it has one.
    fn position(&self, key: &[u8]) -> (r: Option<usize>)
        ensures
            match r {
                Some(at) => at < self.slots@.len() && self.slots@[at as int].key@ == key@,
                None => forall|i: int| 0 <= i < self.slots@.len() ==> self.slots@[i].key@ != key@,
            },
    {
        let n: usize = self.slots.len();
        let mut i: usize = 0;
        while i < n
            invariant
                n == self.slots@.len(),
                i <= n,
                forall|j: int| 0 <= j < i ==> self.slots@[j].key@ != key@,
            decreases n - i,
        {
            if bytes_eq(self.slots[i].key.as_slice(), key) {
                return Some(i);
            }
            i += 1;
        }
        None
    }

    /// How many keys the table holds.
    pub fn len(&self) -> (r: usize)
        ensures
            self@.dom().finite(),
            r == self@.len(),
    {
        proof {
            use_type_invariant(self);
            lemma_map_of_len(self.slots@);
        }
        self.slots.len()
    }

    /// Whether the table holds nothing.
    pub fn is_empty(&self) -> (r: bool)
        ensures
            r == (self@ == Map::<Seq<u8>, Entry>::empty()),
    {
        proof {
            use_type_invariant(self);
            lemma_map_of_len(self.slots@);
            if self.slots@.len() > 0 {
                lemma_map_of_at(self.slots@, 0);
            }
        }
        self.slots.len() == 0
    }

    /// Whether the table holds an entry under `key`.
    pub fn contains_key(&self, key: &[u8]) -> (r: bool)
        ensures
            r == self@.contains_key(key@),
    {
        proof {
            lemma_map_of_domain(self.slots@, key@);
        }
        self.position(key).is_some()
    }

    /// The entry under `key`, if there is one.
    pub fn get(&self, key: &[u8]) -> (r: Option<&Item>)
        ensures
            match r {
                Some(item) => self@.contains_key(key@) && self@[key@] == item@,
                None => !self@.contains_key(key@),
            },
    {
        proof {
            use_type_invariant(self);
            lemma_map_of_domain(self.slots@, key@);
        }
        match self.position(key) {
            Some(at) => {
                proof {
                    lemma_map_of_at(self.slots@, at as int);
                }
                Some(&self.slots[at].item)
            },
            None => None,
        }
    }

    /// Puts `item` under a copy of `key`, in place of whatever entry the key
    /// had.
    pub fn insert(&mut self, key: &[u8], item: Item)
        requires
            is_key(key@),
        ensures
            final(self)@ == old(self)@.insert(key@, item@),
    {
        proof {
            use_type_invariant(&*self);
        }
        let slot = Slot { key: slice_to_vec(key), item };
        let found = self.position(key);
        let mut slots: Vec<Slot> = Vec::new();
        core::mem::swap(&mut self.slots, &mut slots);
        match found {
            Some(at) => {
                proof {
                    lemma_map_of_replace(slots@, at as int, slot);
                }
                slots.set(at, slot);
            },
            None => {
                assert(slots@.push(slot).drop_last() =~= slots@);
                slots.push(slot);
            },
        }
        core::mem::swap(&mut self.slots, &mut slots);
    }
}

impl PartialEq for Item {
    fn eq(&self, other: &Item) -> (r: bool) {
        match (self, other) {
            (Item::Integer(a), Item::Integer(b)) => *a == *b,
            (Item::Opaque(a), Item::Opaque(b)) => bytes_eq(a.as_slice(), b.as_slice()),
            _ => false,
        }
    }
}

impl vstd::std_specs::cmp::PartialEqSpecImpl for Item {
    open spec fn obeys_eq_spec() -> bool {
        true
    }

    /// Two entries are equal where they are of one kind and hold the same.
    open spec fn eq_spec(&self, other: &Item) -> bool {
        self@ == other@
    }
}

impl Eq for Item {

}

impl PartialEq for HashTable {
    fn eq(&self, other: &HashTable) -> (r: bool) {
        proof {
            use_type_invariant(self);
            use_type_invariant(other);
            lemma_map_of_len(self.slots@);
            lemma_map_of_len(other.slots@);
        }
        let n: usize = self.slots.len();
        if n != other.slots.len() {
            return false;
        }
        let mut i: usize = 0;
        while i < n
            invariant
                n == self.slots@.len(),
                i <= n,
                distinct_keys(self.slots@),
                distinct_keys(other.slots@),
                forall|j: int|
                    0 <= j < i ==> other@.contains_key(self.slots@[j].key@) && other@[self.slots@[j].key@]
                        == self.slots@[j].item@,
            decreases n - i,
        {
            let slot = &self.slots[i];
            proof {
                lemma_map_of_at(self.slots@, i as int);
            }
            match other.get(slot.key.as_slice()) {
                Some(item) => {
                    if !(slot.item == *item) {
                        return false;
                    }
                },
                None => {
                    return false;
                },
            }
            i += 1;
        }
        proof {
            assert forall|key: Seq<u8>| #[trigger]
                self@.dom().contains(key) implies other@.dom().contains(key) && other@[key]
                == self@[key] by {
                lemma_map_of_domain(self.slots@, key);
                let j = choose|j: int| 0 <= j < self.slots@.len() && self.slots@[j].key@ == key;
                lemma_map_of_at(self.slots@, j);
            }
            vstd::set_lib::lemma_subset_equality(self@.dom(), other@.dom());
            assert(self@ =~= other@);
        }
        true
    }
}

impl vstd::std_specs::cmp::PartialEqSpecImpl for HashTable {
    open spec fn obeys_eq_spec() -> bool {
        true
    }

    /// Two tables are equal where they hold the same entries under the same
    /// keys.
    open spec fn eq_spec(&self, other: &HashTable) -> bool {
        self@ == other@
    }
}

impl Clone for Item {
    fn clone(&self) -> (r: Item)
        ensures
            r@ == self@,
    {
        match self {
            Item::Integer(value) => Item::Integer(*value),
            Item::Opaque(bytes) => Item::Opaque(slice_to_vec(bytes.as_slice())),
        }
    }
}

impl Clone for HashTable {
    fn clone(&self) -> (r: HashTable)
        ensures
            r@ == self@,
    {
        proof {
            use_type_invariant(self);
        }
        let n: usize = self.slots.len();
        let mut slots: Vec<Slot> = Vec::new();
        let mut i: usize = 0;
        while i < n
            invariant
                n == self.slots@.len(),
                i <= n,
                slots@.len() == i,
                forall|j: int|
                    0 <= j < i ==> slots@[j].key@ == self.slots@[j].key@ && slots@[j].item@
                        == self.slots@[j].item@,
            decreases n - i,
        {
            let slot = &self.slots[i];
            slots.push(Slot { key: slice_to_vec(slot.key.as_slice()), item: slot.item.clone() });
            i += 1;
        }
        proof {
            lemma_map_of_same(slots@, self.slots@);
        }
        HashTable { slots }
    }
}

impl Default for HashTable {
    fn default() -> (r: HashTable)
        ensures
            r@ == Map::<Seq<u8>, Entry>::empty(),
    {
        HashTable::new()
    }
}

/// The bytes that an opaque entry made from a foreign buffer holds: those
/// of the buffer, or none where there is no buffer.
pub open spec fn copied_bytes(buffer: Option<&[u8]>) -> Seq<u8> {
    match buffer {
        Some(bytes) => bytes@,
        None => Seq::empty(),
    }
}

/// A new table that holds nothing.
pub fn tvm_htab_create() -> (htab: HashTable)
    ensures
        htab@ == Map::<Seq<u8>, Entry>::empty(),
{
    HashTable::default()
}

/// Gives up a table with all that it holds; no table is no work.
pub fn tvm_htab_destroy(htab: Option<HashTable>) {
    let _ = htab;
}

/// Puts the integer `value` under `key`, in place of whatever entry the key
/// had, and returns zero for success.
pub fn tvm_htab_add(htab: &mut HashTable, key: &[u8], value: i32) -> (status: i32)
    requires
        is_key(key@),
    ensures
        status == 0,
        final(htab)@ == old(htab)@.insert(key@, Entry::Integer(value)),
{
    htab.insert(key, Item::integer(value));
    0
}

/// Puts a copy of the bytes of `buffer` under `key`, in place of whatever
/// entry the key had, and returns zero for success.
pub fn tvm_htab_add_ref(htab: &mut HashTable, key: &[u8], buffer: Option<&[u8]>) -> (status: i32)
    requires
        is_key(key@),
    ensures
        status == 0,
        final(htab)@ == old(htab)@.insert(key@, Entry::Opaque(copied_bytes(buffer))),
{
    htab.insert(key, Item::from_void(buffer));
    0
}

/// The integer under `key`, or -1 where the table has no such key. An
/// opaque entry counts as zero.
pub fn tvm_htab_find(htab: &HashTable, key: &[u8]) -> (value: i32)
    ensures
        value == (if htab@.contains_key(key@) {
            htab@[key@].value()
        } else {
            -1i32
        }),
{
    match htab.get(key) {
        Some(item) => item.value(),
        None => -1,
    }
}

/// The bytes under `key`, or nothing where the table has no such key. An
/// integer entry has no bytes, which is not nothing.
pub fn tvm_htab_find_ref<'a>(htab: &'a HashTable, key: &[u8]) -> (bytes: Option<&'a [u8]>)
    ensures
        match bytes {
            Some(found) => htab@.contains_key(key@) && found@ == htab@[key@].opaque_value(),
            None => !htab@.contains_key(key@),
        },
{
    match htab.get(key) {
        Some(item) => Some(item.opaque_value()),
        None => None,
    }
}

/// Overwriting is unconditional: of two entries written under one key, the
/// second is the one that the key has afterwards, whatever the first was and
/// whatever the table held before, and the table is as if the first had never
/// been written.
pub proof fn lemma_second_write_wins(
    before: Map<Seq<u8>, Entry>,
    key: Seq<u8>,
    first: Entry,
    second: Entry,
)
    ensures
        before.insert(key, first).insert(key, second)[key] == second,
        before.insert(key, first).insert(key, second) == before.insert(key, second),
{
}

} // verus!
