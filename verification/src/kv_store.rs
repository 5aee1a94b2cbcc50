//! The replicated state machine: a map from keys to values.
use vstd::hash_map::StringHashMap;
use vstd::prelude::*;

use crate::text;
use crate::wire::{
    self, no_such_variant, put_blob, put_text, put_u32, take_blob, take_text, take_u32,
};

verus! {

/// What a client asks for, as it is stored in a log entry.
#[derive(Debug)]
pub enum Command {
    Put { key: String, value: Vec<u8> },
    Delete { key: String },
    /// Appended by every new leader in its own term. It changes nothing in the
    /// state machine; committing it commits everything before it.
    NoOp,
}

/// The content of a [`Command`].
pub enum Op {
    Put { key: Seq<char>, value: Seq<u8> },
    Delete { key: Seq<char> },
    NoOp,
}

impl View for Command {
    type V = Op;

    open spec fn view(&self) -> Op {
        match self {
            Command::Put { key, value } => Op::Put { key: key@, value: value@ },
            Command::Delete { key } => Op::Delete { key: key@ },
            Command::NoOp => Op::NoOp,
        }
    }
}

impl Clone for Command {
    fn clone(&self) -> (r: Self)
        ensures
            r@ == self@,
    {
        match self {
            Command::Put { key, value } => {
                let value_copy = value.clone();
                assert(value_copy@ =~= value@);
                Command::Put { key: key.clone(), value: value_copy }
            },
            Command::Delete { key } => Command::Delete { key: key.clone() },
            Command::NoOp => Command::NoOp,
        }
    }
}

/// Why a command could not be turned into bytes or back.
#[derive(Debug)]
pub enum CommandError {
    Encode(bincode::Error),
}

/// The bytes of a command.
pub open spec fn command_bytes(op: Op) -> Seq<u8> {
    match op {
        Op::Put { key, value } => wire::u32_bytes(0) + wire::text_bytes(key) + wire::blob_bytes(
            value,
        ),
        Op::Delete { key } => wire::u32_bytes(1) + wire::text_bytes(key),
        Op::NoOp => wire::u32_bytes(2),
    }
}

/// The parts of a command are short enough for their lengths to fit.
pub open spec fn command_fits(op: Op) -> bool {
    match op {
        Op::Put { key, value } => wire::text_fits(key) && wire::blob_fits(value),
        Op::Delete { key } => wire::text_fits(key),
        Op::NoOp => true,
    }
}

/// The command at the beginning of `s`.
pub open spec fn parse_command(s: Seq<u8>) -> Option<Op> {
    match wire::parse_u32(s) {
        Some((0, rest)) => match wire::parse_text(rest) {
            Some((key, rest)) => match wire::parse_blob(rest) {
                Some((value, _)) => Some(Op::Put { key, value }),
                None => None,
            },
            None => None,
        },
        Some((1, rest)) => match wire::parse_text(rest) {
            Some((key, _)) => Some(Op::Delete { key }),
            None => None,
        },
        Some((2, _)) => Some(Op::NoOp),
        _ => None,
    }
}

impl Command {
    pub fn encode(&self) -> (r: Result<Vec<u8>, CommandError>)
        ensures
            r is Ok,
            r->Ok_0@ == command_bytes(self@),
            command_fits(self@),
    {
        let mut out: Vec<u8> = Vec::new();
        let written = match self {
            Command::Put { key, value } => encode_put(&mut out, key, value),
            Command::Delete { key } => encode_delete(&mut out, key),
            Command::NoOp => put_u32(&mut out, 2),
        };
        assert(out@ =~= command_bytes(self@));
        match written {
            Ok(_) => Ok(out),
            Err(e) => Err(CommandError::Encode(e)),
        }
    }

    pub fn decode(bytes: &[u8]) -> (r: Result<Self, CommandError>)
        ensures
            match r {
                Ok(command) => parse_command(bytes@) == Some(command@),
                Err(CommandError::Encode(_)) => parse_command(bytes@) is None,
            },
    {
        let (tag, rest) = match take_u32(bytes) {
            Ok(pair) => pair,
            Err(e) => return Err(CommandError::Encode(e)),
        };
        if tag == 0 {
            let (key, rest) = match take_text(rest) {
                Ok(pair) => pair,
                Err(e) => return Err(CommandError::Encode(e)),
            };
            match take_blob(rest) {
                Ok((value, _)) => Ok(Command::Put { key, value }),
                Err(e) => Err(CommandError::Encode(e)),
            }
        } else if tag == 1 {
            match take_text(rest) {
                Ok((key, _)) => Ok(Command::Delete { key }),
                Err(e) => Err(CommandError::Encode(e)),
            }
        } else if tag == 2 {
            Ok(Command::NoOp)
        } else {
            Err(CommandError::Encode(no_such_variant(tag, "variant index 0 <= i < 3")))
        }
    }
}

fn encode_put(out: &mut Vec<u8>, key: &String, value: &Vec<u8>) -> (r: Result<(), bincode::Error>)
    requires
        old(out)@.len() == 0,
    ensures
        r is Ok,
        final(out)@ == command_bytes(Op::Put { key: key@, value: value@ }),
        command_fits(Op::Put { key: key@, value: value@ }),
{
    put_u32(out, 0)?;
    put_text(out, key.as_str())?;
    put_blob(out, value.as_slice())?;
    assert(out@ =~= command_bytes(Op::Put { key: key@, value: value@ }));
    Ok(())
}

fn encode_delete(out: &mut Vec<u8>, key: &String) -> (r: Result<(), bincode::Error>)
    requires
        old(out)@.len() == 0,
    ensures
        r is Ok,
        final(out)@ == command_bytes(Op::Delete { key: key@ }),
        command_fits(Op::Delete { key: key@ }),
{
    put_u32(out, 1)?;
    put_text(out, key.as_str())?;
    assert(out@ =~= command_bytes(Op::Delete { key: key@ }));
    Ok(())
}

/// A command is read back from its bytes, whatever follows them.
pub proof fn command_round_trips(op: Op, rest: Seq<u8>)
    requires
        command_fits(op),
    ensures
        parse_command(command_bytes(op) + rest) == Some(op),
        parse_command(command_bytes(op)) == Some(op),
{
    lemma_command_round_trips(op, rest);
    lemma_command_round_trips(op, Seq::empty());
    assert(command_bytes(op) + Seq::<u8>::empty() =~= command_bytes(op));
}

proof fn lemma_command_round_trips(op: Op, rest: Seq<u8>)
    requires
        command_fits(op),
    ensures
        parse_command(command_bytes(op) + rest) == Some(op),
{
    match op {
        Op::Put { key, value } => {
            let tail = wire::blob_bytes(value) + rest;
            wire::u32_round_trips(0, wire::text_bytes(key) + tail);
            wire::text_round_trips(key, tail);
            wire::blob_round_trips(value, rest);
            assert(command_bytes(op) + rest =~= wire::u32_bytes(0) + (wire::text_bytes(key)
                + tail));
        },
        Op::Delete { key } => {
            wire::u32_round_trips(1, wire::text_bytes(key) + rest);
            wire::text_round_trips(key, rest);
            assert(command_bytes(op) + rest =~= wire::u32_bytes(1) + (wire::text_bytes(key)
                + rest));
        },
        Op::NoOp => {
            wire::u32_round_trips(2, rest);
        },
    }
}

/// The content of an optional value.
pub open spec fn blob(value: Option<Vec<u8>>) -> Option<Seq<u8>> {
    match value {
        Some(bytes) => Some(bytes@),
        None => None,
    }
}

/// The store after one command.
pub open spec fn applied(store: Map<Seq<char>, Seq<u8>>, op: Op) -> Map<Seq<char>, Seq<u8>> {
    match op {
        Op::Put { key, value } => store.insert(key, value),
        Op::Delete { key } => store.remove(key),
        Op::NoOp => store,
    }
}

/// The value a key has.
pub open spec fn lookup(store: Map<Seq<char>, Seq<u8>>, key: Seq<char>) -> Option<Seq<u8>> {
    if store.contains_key(key) {
        Some(store[key])
    } else {
        None
    }
}

/// The value a command takes away or writes over.
pub open spec fn displaced(store: Map<Seq<char>, Seq<u8>>, op: Op) -> Option<Seq<u8>> {
    match op {
        Op::Put { key, .. } => lookup(store, key),
        Op::Delete { key } => lookup(store, key),
        Op::NoOp => None,
    }
}

/// The store after a sequence of commands, applied in order.
pub open spec fn applied_all(store: Map<Seq<char>, Seq<u8>>, ops: Seq<Op>) -> Map<
    Seq<char>,
    Seq<u8>,
>
    decreases ops.len(),
{
    if ops.len() == 0 {
        store
    } else {
        applied(applied_all(store, ops.drop_last()), ops.last())
    }
}

/// The state machine. Every node applies the same committed commands in the
/// same order, so every node holds the same map.
pub struct KvStore {
    data: StringHashMap<Vec<u8>>,
    /// The keys of `data`, each once.
    keys: Vec<String>,
}

impl View for KvStore {
    type V = Map<Seq<char>, Seq<u8>>;

    closed spec fn view(&self) -> Map<Seq<char>, Seq<u8>> {
        self.data@.map_values(|value: Vec<u8>| value@)
    }
}

impl Default for KvStore {
    fn default() -> (r: Self)
        ensures
            r.valid(),
            r@ == Map::<Seq<char>, Seq<u8>>::empty(),
    {
        KvStore::new()
    }
}

impl Clone for KvStore {
    fn clone(&self) -> (r: Self)
        ensures
            self.valid() ==> r.valid() && r@ == self@,
    {
        let mut copy = KvStore::new();
        for i in 0..self.keys.len()
            invariant
                copy.valid(),
                self.valid() ==> copy@.dom() == text::texts(self.keys@).take(i as int).to_set(),
                self.valid() ==> forall|key: Seq<char>| #[trigger]
                    copy@.contains_key(key) ==> copy@[key] == self@[key],
        {
            let ghost before = text::texts(self.keys@).take(i as int);
            let key = &self.keys[i];
            proof {
                assert(text::texts(self.keys@).take(i + 1) =~= before.push(key@));
                before.lemma_push_to_set_commute(key@);
                assert(text::texts(self.keys@)[i as int] == key@);
                assert(self.valid() ==> text::texts(self.keys@).to_set().contains(key@));
            }
            if let Some(value) = self.copy_of(key.as_str()) {
                copy.insert(key, value);
            }
        }
        proof {
            assert(text::texts(self.keys@).take(self.keys@.len() as int) =~= text::texts(self.keys@));
            assert(self@.dom() =~= self.data@.dom());
            if self.valid() {
                assert(copy@ =~= self@);
            }
        }
        copy
    }
}

impl KvStore {
    pub closed spec fn valid(&self) -> bool {
        &&& text::texts(self.keys@).no_duplicates()
        &&& text::texts(self.keys@).to_set() == self.data@.dom()
    }

    pub fn new() -> (r: Self)
        ensures
            r.valid(),
            r@ == Map::<Seq<char>, Seq<u8>>::empty(),
    {
        let store = KvStore { data: StringHashMap::new(), keys: Vec::new() };
        assert(text::texts(store.keys@).to_set() =~= store.data@.dom());
        assert(store@ =~= Map::<Seq<char>, Seq<u8>>::empty());
        store
    }

    pub fn get(&self, key: &str) -> (r: Option<&Vec<u8>>)
        ensures
            match r {
                Some(value) => lookup(self@, key@) == Some(value@),
                None => lookup(self@, key@) is None,
            },
    {
        self.data.get(key)
    }

    pub fn len(&self) -> (r: usize)
        ensures
            r == self@.len(),
            self.valid() ==> self@.dom().finite(),
    {
        proof {
            assert(self@.dom() =~= self.data@.dom());
            assert(text::texts(self.keys@).to_set().finite()) by {
                vstd::seq_lib::seq_to_set_is_finite(text::texts(self.keys@));
            }
        }
        self.data.len()
    }

    pub fn is_empty(&self) -> (r: bool)
        ensures
            r == (self@ == Map::<Seq<char>, Seq<u8>>::empty()),
    {
        proof {
            assert(self@.dom() =~= self.data@.dom());
            if self.data@.is_empty() {
                assert(self@ =~= Map::<Seq<char>, Seq<u8>>::empty());
            }
        }
        self.data.is_empty()
    }

    /// A copy of the value of `key`.
    fn copy_of(&self, key: &str) -> (r: Option<Vec<u8>>)
        ensures
            blob(r) == lookup(self@, key@),
    {
        match self.get(key) {
            Some(value) => {
                let copy = value.clone();
                assert(copy@ =~= value@);
                Some(copy)
            },
            None => None,
        }
    }

    /// Applies one committed command and returns the value it displaced.
    pub fn apply(&mut self, command: &Command) -> (r: Option<Vec<u8>>)
        requires
            old(self).valid(),
        ensures
            final(self).valid(),
            final(self)@ == applied(old(self)@, command@),
            blob(r) == displaced(old(self)@, command@),
    {
        match command {
            Command::Put { key, value } => {
                let before = self.copy_of(key.as_str());
                let copy = value.clone();
                assert(copy@ =~= value@);
                self.insert(key, copy);
                before
            },
            Command::Delete { key } => {
                let before = self.copy_of(key.as_str());
                self.remove(key);
                before
            },
            Command::NoOp => None,
        }
    }

    /// Every key once, with its value, in no particular order.
    pub(crate) fn pairs(&self) -> (r: Vec<(String, Vec<u8>)>)
        requires
            self.valid(),
        ensures
            lists(pairs_of(r@), self@),
    {
        let mut items: Vec<(String, Vec<u8>)> = Vec::new();
        for i in 0..self.keys.len()
            invariant
                self.valid(),
                items.len() == i,
                forall|j: int|
                    0 <= j < i ==> (#[trigger] items@[j]).0@ == self.keys@[j]@ && items@[j].1@
                        == self@[self.keys@[j]@],
        {
            let key = self.keys[i].clone();
            assert(text::texts(self.keys@)[i as int] == key@);
            assert(text::texts(self.keys@).to_set().contains(key@));
            if let Some(value) = self.copy_of(key.as_str()) {
                items.push((key, value));
            } else {
                assert(false);
            }
        }
        assert(keys_of(pairs_of(items@)) =~= text::texts(self.keys@));
        assert(self@.dom() =~= self.data@.dom());
        items
    }

    pub(crate) fn insert(&mut self, key: &String, value: Vec<u8>)
        requires
            old(self).valid(),
        ensures
            final(self).valid(),
            final(self)@ == old(self)@.insert(key@, value@),
    {
        if !self.data.contains_key(key.as_str()) {
            self.keys.push(key.clone());
            proof {
                let before = text::texts(old(self).keys@);
                let after = text::texts(self.keys@);
                assert(after =~= before.push(key@));
                assert(!before.to_set().contains(key@));
                before.lemma_push_to_set_commute(key@);
            }
        } else {
            assert(old(self).data@.dom().insert(key@) =~= old(self).data@.dom());
        }
        self.data.insert(key.clone(), value);
        assert(self@ =~= old(self)@.insert(key@, value@));
    }

    fn remove(&mut self, key: &String)
        requires
            old(self).valid(),
        ensures
            final(self).valid(),
            final(self)@ == old(self)@.remove(key@),
    {
        let ghost before = text::texts(self.keys@);
        if let Some(i) = position(&self.keys, key) {
            self.keys.swap_remove(i);
            proof {
                assert(text::texts(self.keys@) =~= before.update(i as int, before.last()).drop_last());
                lemma_swap_remove(before, i as int);
            }
        } else {
            assert(!before.to_set().contains(key@));
            assert(old(self).data@.dom().remove(key@) =~= old(self).data@.dom());
        }
        self.data.remove(key.as_str());
        assert(self@ =~= old(self)@.remove(key@));
    }
}

/// A key and its value.
pub type Pair = (Seq<char>, Seq<u8>);

/// The contents of a list of keys and values.
pub open spec fn pairs_of(items: Seq<(String, Vec<u8>)>) -> Seq<Pair> {
    Seq::new(items.len(), |i: int| (items[i].0@, items[i].1@))
}

/// The keys in a list of pairs.
pub open spec fn keys_of(pairs: Seq<Pair>) -> Seq<Seq<char>> {
    Seq::new(pairs.len(), |i: int| pairs[i].0)
}

/// `pairs` holds every key of `store` once, with its value.
pub open spec fn lists(pairs: Seq<Pair>, store: Map<Seq<char>, Seq<u8>>) -> bool {
    &&& keys_of(pairs).no_duplicates()
    &&& keys_of(pairs).to_set() == store.dom()
    &&& forall|i: int| 0 <= i < pairs.len() ==> store[(#[trigger] pairs[i]).0] == pairs[i].1
}

/// The store that a list of pairs describes; of two pairs with one key the
/// later counts.
pub open spec fn collected(pairs: Seq<Pair>) -> Map<Seq<char>, Seq<u8>>
    decreases pairs.len(),
{
    if pairs.len() == 0 {
        Map::empty()
    } else {
        collected(pairs.drop_last()).insert(pairs.last().0, pairs.last().1)
    }
}

/// A list of what a store holds describes that store.
pub proof fn listing_describes_the_store(pairs: Seq<Pair>, store: Map<Seq<char>, Seq<u8>>)
    requires
        lists(pairs, store),
    ensures
        collected(pairs) == store,
{
    lemma_collected(pairs);
    assert(collected(pairs).dom() =~= store.dom());
    assert forall|key: Seq<char>| store.contains_key(key) implies collected(pairs)[key]
        == store[key] by {
        assert(keys_of(pairs).to_set().contains(key));
        let i = choose|i: int| 0 <= i < pairs.len() && keys_of(pairs)[i] == key;
        assert(pairs[i].0 == key);
    }
    assert(collected(pairs) =~= store);
}

proof fn lemma_collected(pairs: Seq<Pair>)
    requires
        keys_of(pairs).no_duplicates(),
    ensures
        collected(pairs).dom() == keys_of(pairs).to_set(),
        forall|i: int|
            0 <= i < pairs.len() ==> collected(pairs)[(#[trigger] pairs[i]).0] == pairs[i].1,
    decreases pairs.len(),
{
    let keys = keys_of(pairs);
    if pairs.len() == 0 {
        assert(collected(pairs).dom() =~= keys.to_set());
    } else {
        let fewer = pairs.drop_last();
        assert(keys_of(fewer) =~= keys.drop_last());
        lemma_collected(fewer);
        assert(keys =~= keys_of(fewer).push(pairs.last().0));
        keys_of(fewer).lemma_push_to_set_commute(pairs.last().0);
        assert forall|i: int| 0 <= i < pairs.len() implies collected(pairs)[(
        #[trigger] pairs[i]).0] == pairs[i].1 by {
            if i < pairs.len() - 1 {
                assert(fewer[i] == pairs[i]);
                assert(keys[i] != keys[pairs.len() - 1]);
            }
        }
    }
}

/// Where `key` stands in `keys`.
fn position(keys: &Vec<String>, key: &String) -> (r: Option<usize>)
    ensures
        match r {
            Some(i) => i < keys.len() && keys@[i as int]@ == key@,
            None => !text::texts(keys@).contains(key@),
        },
{
    for i in 0..keys.len()
        invariant
            forall|j: int| 0 <= j < i ==> (#[trigger] keys@[j])@ != key@,
    {
        if keys[i] == *key {
            return Some(i);
        }
    }
    None
}

proof fn lemma_swap_remove(s: Seq<Seq<char>>, i: int)
    requires
        s.no_duplicates(),
        0 <= i < s.len(),
    ensures
        s.update(i, s.last()).drop_last().no_duplicates(),
        s.update(i, s.last()).drop_last().to_set() == s.to_set().remove(s[i]),
{
    let t = s.update(i, s.last()).drop_last();
    assert forall|x: Seq<char>| s.to_set().remove(s[i]).contains(x) implies t.to_set().contains(
        x,
    ) by {
        let k = choose|k: int| 0 <= k < s.len() && s[k] == x;
        if k == s.len() - 1 {
            assert(t[i] == x);
        } else {
            assert(t[k] == x);
        }
    }
    assert(t.to_set() =~= s.to_set().remove(s[i]));
}

/// A value that was put is what a read gives back.
pub proof fn put_then_get(store: Map<Seq<char>, Seq<u8>>, key: Seq<char>, value: Seq<u8>)
    ensures
        lookup(applied(store, Op::Put { key, value }), key) == Some(value),
        forall|other: Seq<char>|
            other != key ==> #[trigger] lookup(applied(store, Op::Put { key, value }), other)
                == lookup(store, other),
{
}

/// A key that was deleted is gone, and no other key is touched.
pub proof fn delete_then_get(store: Map<Seq<char>, Seq<u8>>, key: Seq<char>)
    ensures
        lookup(applied(store, Op::Delete { key }), key) is None,
        forall|other: Seq<char>|
            other != key ==> #[trigger] lookup(applied(store, Op::Delete { key }), other) == lookup(
                store,
                other,
            ),
{
}

/// A no-op changes nothing and displaces nothing.
pub proof fn noop_changes_nothing(store: Map<Seq<char>, Seq<u8>>)
    ensures
        applied(store, Op::NoOp) == store,
        displaced(store, Op::NoOp) is None,
{
}

/// Applying commands in two batches is applying them in one.
pub proof fn batches_add_up(store: Map<Seq<char>, Seq<u8>>, first: Seq<Op>, second: Seq<Op>)
    ensures
        applied_all(applied_all(store, first), second) == applied_all(store, first + second),
    decreases second.len(),
{
    if second.len() == 0 {
        assert(first + second =~= first);
    } else {
        batches_add_up(store, first, second.drop_last());
        assert((first + second).drop_last() =~= first + second.drop_last());
    }
}

/// What a read gives depends on the key alone: its value if it has one, and
/// nothing if it has none.
pub proof fn reads_give_the_value_of_the_key(store: Map<Seq<char>, Seq<u8>>, key: Seq<char>)
    ensures
        store.contains_key(key) ==> lookup(store, key) == Some(store[key]),
        !store.contains_key(key) ==> lookup(store, key) is None,
{
}

/// A write adds its key and a delete takes its key away, and each touches no
/// other key, however many or few there are.
pub proof fn commands_touch_their_key_alone(
    store: Map<Seq<char>, Seq<u8>>,
    key: Seq<char>,
    value: Seq<u8>,
)
    ensures
        applied(store, Op::Put { key, value }).dom() == store.dom().insert(key),
        applied(store, Op::Put { key, value })[key] == value,
        applied(store, Op::Delete { key }).dom() == store.dom().remove(key),
        forall|other: Seq<char>|
            other != key && #[trigger] store.contains_key(other) ==> {
                &&& applied(store, Op::Put { key, value })[other] == store[other]
                &&& applied(store, Op::Delete { key })[other] == store[other]
            },
{
}

/// A command is answered with the value that its key had before it, and with
/// nothing if there was none.
pub proof fn answers_show_the_value_before(
    store: Map<Seq<char>, Seq<u8>>,
    key: Seq<char>,
    value: Seq<u8>,
)
    ensures
        store.contains_key(key) ==> {
            &&& displaced(store, Op::Put { key, value }) == Some(store[key])
            &&& displaced(store, Op::Delete { key }) == Some(store[key])
        },
        !store.contains_key(key) ==> {
            &&& displaced(store, Op::Put { key, value }) is None
            &&& displaced(store, Op::Delete { key }) is None
        },
{
}

/// A delete undoes a write of a new key, and two writes of one key are the
/// later one, which is told the value of the earlier.
pub proof fn writes_replace_each_other(
    store: Map<Seq<char>, Seq<u8>>,
    key: Seq<char>,
    first: Seq<u8>,
    second: Seq<u8>,
)
    ensures
        ({
            let once = applied(store, Op::Put { key, value: first });
            &&& applied(once, Op::Put { key, value: second }) == applied(
                store,
                Op::Put { key, value: second },
            )
            &&& displaced(once, Op::Put { key, value: second }) == Some(first)
            &&& displaced(once, Op::Delete { key }) == Some(first)
            &&& !store.contains_key(key) ==> applied(once, Op::Delete { key }) == store
        }),
{
    let once = applied(store, Op::Put { key, value: first });
    assert(applied(once, Op::Put { key, value: second }) =~= applied(
        store,
        Op::Put { key, value: second },
    ));
    if !store.contains_key(key) {
        assert(applied(once, Op::Delete { key }) =~= store);
    }
}

/// Commands are applied one after the other: the last of them meets the store
/// that the ones before it made.
pub proof fn commands_are_applied_in_order(
    store: Map<Seq<char>, Seq<u8>>,
    ops: Seq<Op>,
    key: Seq<char>,
    value: Seq<u8>,
)
    ensures
        applied_all(store, Seq::empty()) == store,
        applied_all(store, ops.push(Op::Put { key, value })) == applied_all(store, ops).insert(
            key,
            value,
        ),
        applied_all(store, ops.push(Op::Delete { key })) == applied_all(store, ops).remove(key),
        applied_all(store, ops.push(Op::NoOp)) == applied_all(store, ops),
{
    assert(ops.push(Op::Put { key, value }).drop_last() =~= ops);
    assert(ops.push(Op::Delete { key }).drop_last() =~= ops);
    assert(ops.push(Op::NoOp).drop_last() =~= ops);
}

/// Bytes are read as a command only if they begin with the bytes of exactly
/// that command: nothing else passes for one.
pub proof fn only_commands_are_decoded(s: Seq<u8>)
    ensures
        parse_command(s) matches Some(op) ==> s.len() >= command_bytes(op).len() && s.take(
            command_bytes(op).len() as int,
        ) == command_bytes(op),
{
    if let Some(op) = parse_command(s) {
        wire::what_is_read_was_written(s);
        let (_, rest) = wire::parse_u32(s)->0;
        wire::what_is_read_was_written(rest);
        match op {
            Op::Put { key, value } => {
                let (_, more) = wire::parse_text(rest)->0;
                wire::what_is_read_was_written(more);
                let (_, left) = wire::parse_blob(more)->0;
                assert(s =~= command_bytes(op) + left);
            },
            Op::Delete { key } => {
                let (_, left) = wire::parse_text(rest)->0;
                assert(s =~= command_bytes(op) + left);
            },
            Op::NoOp => {},
        }
        assert(s.take(command_bytes(op).len() as int) =~= command_bytes(op));
    }
}

/// Different commands have different bytes.
pub proof fn commands_are_told_apart(a: Op, b: Op)
    requires
        command_fits(a),
        command_fits(b),
        command_bytes(a) == command_bytes(b),
    ensures
        a == b,
{
    command_round_trips(a, Seq::empty());
    command_round_trips(b, Seq::empty());
}

/// A list of pairs describes the store in which every key has the value of the
/// last pair that names it, and no other keys are.
pub proof fn later_pairs_count(pairs: Seq<Pair>, key: Seq<char>, value: Seq<u8>)
    ensures
        collected(Seq::empty()) == Map::<Seq<char>, Seq<u8>>::empty(),
        collected(pairs.push((key, value))).dom() == collected(pairs).dom().insert(key),
        collected(pairs.push((key, value)))[key] == value,
        forall|other: Seq<char>|
            other != key ==> #[trigger] collected(pairs.push((key, value)))[other] == collected(
                pairs,
            )[other],
{
    assert(pairs.push((key, value)).drop_last() =~= pairs);
}

/// The bytes of a command start with a tag of four bytes that says what kind it
/// is, and the key comes next.
pub proof fn commands_start_with_their_tag(key: Seq<char>, value: Seq<u8>)
    ensures
        ({
            let put = command_bytes(Op::Put { key, value });
            let delete = command_bytes(Op::Delete { key });
            let named = 4 + wire::text_bytes(key).len() as int;
            &&& put.take(4) == wire::u32_bytes(0)
            &&& delete.take(4) == wire::u32_bytes(1)
            &&& command_bytes(Op::NoOp) == wire::u32_bytes(2)
            &&& put.subrange(4, named) == wire::text_bytes(key)
            &&& delete.skip(4) == wire::text_bytes(key)
            &&& put.skip(named) == wire::blob_bytes(value)
        }),
{
    vstd::bytes::lemma_auto_spec_u32_to_from_le_bytes();
    let put = command_bytes(Op::Put { key, value });
    let delete = command_bytes(Op::Delete { key });
    let named = 4 + wire::text_bytes(key).len() as int;
    assert(put.take(4) =~= wire::u32_bytes(0));
    assert(delete.take(4) =~= wire::u32_bytes(1));
    assert(put.subrange(4, named) =~= wire::text_bytes(key));
    assert(delete.skip(4) =~= wire::text_bytes(key));
    assert(put.skip(named) =~= wire::blob_bytes(value));
}

/// A command stands for itself: its kind, its key and its value.
pub proof fn commands_stand_for_themselves(key: String, value: Vec<u8>)
    ensures
        (Command::Put { key, value })@ == (Op::Put { key: key@, value: value@ }),
        (Command::Delete { key })@ == (Op::Delete { key: key@ }),
        Command::NoOp@ == Op::NoOp,
        blob(Some(value)) == Some(value@),
        blob(None) is None,
{
}

/// A list of keys and values stands for all of them.
pub proof fn lists_stand_for_all_pairs(items: Seq<(String, Vec<u8>)>, i: int)
    requires
        0 <= i < items.len(),
    ensures
        pairs_of(items).len() == items.len(),
        pairs_of(items)[i] == (items[i].0@, items[i].1@),
        keys_of(pairs_of(items)).len() == items.len(),
        keys_of(pairs_of(items))[i] == items[i].0@,
{
}

/// A list of what a store holds has every key of it, each once and with its
/// value, and nothing else.
pub proof fn listings_are_complete(
    pairs: Seq<Pair>,
    store: Map<Seq<char>, Seq<u8>>,
    key: Seq<char>,
    i: int,
    j: int,
)
    requires
        lists(pairs, store),
        0 <= i < pairs.len(),
        0 <= j < pairs.len(),
    ensures
        store.contains_key(pairs[i].0),
        store[pairs[i].0] == pairs[i].1,
        pairs[i].0 == pairs[j].0 ==> i == j,
        store.contains_key(key) ==> exists|k: int|
            0 <= k < pairs.len() && (#[trigger] pairs[k]).0 == key,
{
    let keys = keys_of(pairs);
    assert(keys[i] == pairs[i].0);
    assert(keys[j] == pairs[j].0);
    assert(keys.to_set().contains(keys[i]));
    if store.contains_key(key) {
        assert(keys.to_set().contains(key));
        let k = choose|k: int| 0 <= k < keys.len() && keys[k] == key;
        assert(pairs[k].0 == key);
    }
}

} // verus!
