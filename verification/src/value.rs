//! The value model: the executable tree and the mathematical tree it stands
//! for.
use vstd::prelude::*;
use vstd::slice::slice_to_vec;
use crate::order::{
    bytes_equal, bytes_less, lemma_lex_less_total, lemma_lex_less_transitive, lex_less,
};

verus! {

/// The mathematical value tree: what a [`Value`] stands for in contracts.
pub enum Tree {
    /// A signed 64-bit integer.
    Integer(i64),
    /// A string of raw bytes, not necessarily text.
    ByteString(Seq<u8>),
    /// The children, in order.
    List(Seq<Tree>),
    /// The entries of a dictionary as pairs of key and value, in key order.
    Dictionary(Seq<(Seq<u8>, Tree)>),
}

/// The keys of `entries` ascend strictly in byte-lexicographic order, so no
/// key occurs twice.
pub open spec fn keys_ascend(entries: Seq<(Seq<u8>, Tree)>) -> bool {
    forall|i: int, j: int|
        0 <= i < j < entries.len() ==> lex_less(#[trigger] entries[i].0, #[trigger] entries[j].0)
}

impl Tree {
    /// The invariant of the model: in every dictionary of the tree the keys
    /// ascend strictly.
    pub open spec fn well_formed(self) -> bool
        decreases self,
    {
        match self {
            Tree::Integer(_) => true,
            Tree::ByteString(_) => true,
            Tree::List(items) => forall|i: int|
                0 <= i < items.len() ==> (#[trigger] items[i]).well_formed(),
            Tree::Dictionary(entries) => {
                &&& keys_ascend(entries)
                &&& forall|i: int|
                    0 <= i < entries.len() ==> (#[trigger] entries[i]).1.well_formed()
            },
        }
    }

    /// How deeply lists and dictionaries nest: 0 for an integer or a byte
    /// string, and for a container one more than the deepest of its children.
    pub open spec fn depth(self) -> nat
        decreases self,
    {
        match self {
            Tree::Integer(_) => 0,
            Tree::ByteString(_) => 0,
            Tree::List(items) => 1 + Self::deepest(items),
            Tree::Dictionary(entries) => 1 + Self::deepest_entry(entries),
        }
    }

    /// The greatest depth among `items`, 0 if there are none.
    pub open spec fn deepest(items: Seq<Tree>) -> nat
        decreases items,
    {
        if items.len() == 0 {
            0
        } else {
            let rest = Self::deepest(items.drop_last());
            let last = items.last().depth();
            if last > rest { last } else { rest }
        }
    }

    /// The greatest depth among the values of `entries`, 0 if there are none.
    pub open spec fn deepest_entry(entries: Seq<(Seq<u8>, Tree)>) -> nat
        decreases entries,
    {
        if entries.len() == 0 {
            0
        } else {
            let rest = Self::deepest_entry(entries.drop_last());
            let last = entries.last().1.depth();
            if last > rest { last } else { rest }
        }
    }
}

/// A bencode value.
#[derive(Debug, PartialEq, Eq)]
pub enum Value {
    /// A signed 64-bit integer.
    Integer(i64),
    /// A string of raw bytes, not necessarily text.
    ByteString(Vec<u8>),
    /// An ordered list of values.
    List(Vec<Value>),
    /// A dictionary from byte strings to values.
    Dictionary(Dictionary),
}

/// A dictionary from byte-string keys to values. Its entries are kept in
/// strictly ascending key order, so every key occurs once.
#[derive(Debug, PartialEq, Eq)]
pub struct Dictionary {
    entries: Vec<(Vec<u8>, Value)>,
}

/// The trees that `items` stand for, in the same order.
pub open spec fn view_items(items: Seq<Value>) -> Seq<Tree>
    decreases items,
{
    if items.len() == 0 {
        Seq::empty()
    } else {
        view_items(items.drop_last()).push(items.last().view())
    }
}

/// The pairs of key and tree that `entries` stand for, in the same order.
pub open spec fn view_entries(entries: Seq<(Vec<u8>, Value)>) -> Seq<(Seq<u8>, Tree)>
    decreases entries,
{
    if entries.len() == 0 {
        Seq::empty()
    } else {
        view_entries(entries.drop_last()).push((entries.last().0@, entries.last().1.view()))
    }
}

impl Value {
    /// A copy of the value.
    #[verifier::loop_isolation(false)]
    pub fn duplicate(&self) -> (copy: Value)
        ensures
            copy@ == self@,
        decreases self,
    {
        match self {
            Value::Integer(n) => Value::Integer(*n),
            Value::ByteString(bytes) => Value::ByteString(slice_to_vec(bytes.as_slice())),
            Value::List(items) => {
                let mut copies: Vec<Value> = Vec::new();
                let mut i: usize = 0;
                while i < items.len()
                    invariant
                        i <= items.len(),
                        copies.len() == i,
                        forall|j: int| 0 <= j < i ==> (#[trigger] copies@[j])@ == items@[j]@,
                    decreases items.len() - i,
                {
                    copies.push(items[i].duplicate());
                    i += 1;
                }
                proof {
                    lemma_view_items(items@);
                    lemma_view_items(copies@);
                    assert(view_items(copies@) =~= view_items(items@));
                }
                Value::List(copies)
            },
            Value::Dictionary(dict) => Value::Dictionary(dict.duplicate()),
        }
    }
}

impl Clone for Value {
    fn clone(&self) -> (copy: Value)
        ensures
            copy@ == self@,
    {
        self.duplicate()
    }
}

impl Clone for Dictionary {
    fn clone(&self) -> (copy: Dictionary)
        ensures
            copy@ == self@,
    {
        self.duplicate()
    }
}

impl View for Value {
    type V = Tree;

    open spec fn view(&self) -> Tree
        decreases self,
    {
        match self {
            Value::Integer(n) => Tree::Integer(*n),
            Value::ByteString(bytes) => Tree::ByteString(bytes@),
            Value::List(items) => Tree::List(view_items(items@)),
            Value::Dictionary(dict) => Tree::Dictionary(dict.view()),
        }
    }
}

impl View for Dictionary {
    type V = Seq<(Seq<u8>, Tree)>;

    closed spec fn view(&self) -> Seq<(Seq<u8>, Tree)>
        decreases self,
    {
        view_entries(self.entries@)
    }
}

/// The first position of `entries` whose key does not come before `key`: where
/// `key` stands, or would have to be put to keep the keys ascending.
pub open spec fn key_position(entries: Seq<(Seq<u8>, Tree)>, key: Seq<u8>) -> int
    decreases entries.len(),
{
    if entries.len() == 0 || !lex_less(entries[0].0, key) {
        0
    } else {
        1 + key_position(entries.skip(1), key)
    }
}

/// `entries` with `key` bound to `tree`: the entry of that key replaced if
/// there is one, a new entry put in key order if not.
pub open spec fn with_entry(entries: Seq<(Seq<u8>, Tree)>, key: Seq<u8>, tree: Tree) -> Seq<
    (Seq<u8>, Tree),
> {
    let at = key_position(entries, key);
    if at < entries.len() && entries[at].0 == key {
        entries.update(at, (key, tree))
    } else {
        entries.insert(at, (key, tree))
    }
}

impl Dictionary {
    #[verifier::type_invariant]
    spec fn ordered(self) -> bool {
        keys_ascend(view_entries(self.entries@))
    }

    /// A dictionary without entries.
    pub fn new() -> (dict: Dictionary)
        ensures
            dict@ == Seq::<(Seq<u8>, Tree)>::empty(),
    {
        Dictionary { entries: Vec::new() }
    }

    /// The dictionary of `entries`, which are in key order already.
    pub(crate) fn from_ordered(entries: Vec<(Vec<u8>, Value)>) -> (dict: Dictionary)
        requires
            keys_ascend(view_entries(entries@)),
        ensures
            dict@ == view_entries(entries@),
    {
        Dictionary { entries }
    }

    /// The entries in key order.
    pub fn entries(&self) -> (entries: &Vec<(Vec<u8>, Value)>)
        ensures
            view_entries(entries@) == self@,
            keys_ascend(self@),
            decreases_to!(self => entries),
    {
        proof {
            use_type_invariant(self);
        }
        &self.entries
    }

    /// The value bound to `key`, if there is one.
    pub fn get(&self, key: &[u8]) -> (found: Option<&Value>)
        ensures
            match found {
                Some(value) => exists|i: int|
                    0 <= i < self@.len() && #[trigger] self@[i] == (key@, value@),
                None => forall|i: int| 0 <= i < self@.len() ==> (#[trigger] self@[i]).0 != key@,
            },
    {
        proof {
            lemma_view_entries(self.entries@);
        }
        let mut at: usize = 0;
        while at < self.entries.len()
            invariant
                at <= self.entries.len(),
                self@ == view_entries(self.entries@),
                self@.len() == self.entries.len(),
                forall|i: int|
                    0 <= i < self.entries.len() ==> #[trigger] self@[i] == (
                        self.entries@[i].0@,
                        self.entries@[i].1@,
                    ),
                forall|i: int| 0 <= i < at ==> (#[trigger] self@[i]).0 != key@,
            decreases self.entries.len() - at,
        {
            if bytes_equal(self.entries[at].0.as_slice(), key) {
                assert(self@[at as int] == (key@, self.entries@[at as int].1@));
                return Some(&self.entries[at].1);
            }
            at += 1;
        }
        None
    }

    /// Binds `key` to `value`, in place of the value that `key` was bound to
    /// before, if there was one, which is then given back.
    pub fn insert(&mut self, key: Vec<u8>, value: Value) -> (replaced: Option<Value>)
        ensures
            final(self)@ == with_entry(old(self)@, key@, value@),
            keys_ascend(final(self)@),
            ({
                let at = key_position(old(self)@, key@);
                match replaced {
                    Some(before) => at < old(self)@.len() && old(self)@[at] == (key@, before@),
                    None => !(at < old(self)@.len() && old(self)@[at].0 == key@),
                }
            }),
    {
        proof {
            use_type_invariant(&*self);
            lemma_view_entries(self.entries@);
        }
        let ghost before = self@;
        let ghost goal = with_entry(self@, key@, value@);
        let mut at: usize = 0;
        while at < self.entries.len() && bytes_less(self.entries[at].0.as_slice(), key.as_slice())
            invariant
                at <= self.entries.len(),
                before == view_entries(self.entries@),
                before.len() == self.entries.len(),
                forall|i: int|
                    0 <= i < self.entries.len() ==> #[trigger] before[i] == (
                        self.entries@[i].0@,
                        self.entries@[i].1@,
                    ),
                forall|i: int| 0 <= i < at ==> lex_less((#[trigger] before[i]).0, key@),
            decreases self.entries.len() - at,
        {
            at += 1;
        }
        proof {
            lemma_key_position_is(before, key@, at as int);
            lemma_with_entry_ascends(before, key@, value@);
        }
        let same = at < self.entries.len() && bytes_equal(
            self.entries[at].0.as_slice(),
            key.as_slice(),
        );
        let ghost stored = self.entries@;
        let mut entries: Vec<(Vec<u8>, Value)> = Vec::new();
        proof {
            assert(view_entries(entries@) =~= Seq::<(Seq<u8>, Tree)>::empty());
        }
        std::mem::swap(&mut self.entries, &mut entries);
        let replaced = if same {
            let taken = entries.remove(at);
            Some(taken.1)
        } else {
            None
        };
        let ghost middle = entries@;
        entries.insert(at, (key, value));
        proof {
            lemma_view_entries(entries@);
            assert(view_entries(entries@) =~= goal) by {
                assert forall|i: int| 0 <= i < goal.len() implies view_entries(entries@)[i]
                    == goal[i] by {
                    if i < at {
                        assert(entries@[i] == middle[i]);
                        assert(middle[i] == stored[i]);
                    } else if i > at {
                        assert(entries@[i] == middle[i - 1]);
                        if same {
                            assert(middle[i - 1] == stored[i]);
                        } else {
                            assert(middle[i - 1] == stored[i - 1]);
                        }
                    }
                }
            }
        }
        self.entries = entries;
        replaced
    }

    /// A copy of the dictionary.
    pub fn duplicate(&self) -> (copy: Dictionary)
        ensures
            copy@ == self@,
        decreases self,
    {
        proof {
            use_type_invariant(self);
            lemma_view_entries(self.entries@);
        }
        let mut entries: Vec<(Vec<u8>, Value)> = Vec::new();
        let mut i: usize = 0;
        while i < self.entries.len()
            invariant
                i <= self.entries.len(),
                entries.len() == i,
                forall|j: int|
                    0 <= j < i ==> (#[trigger] entries@[j]).0@ == self.entries@[j].0@
                        && entries@[j].1@ == self.entries@[j].1@,
            decreases self.entries.len() - i,
        {
            let key = slice_to_vec(self.entries[i].0.as_slice());
            let value = self.entries[i].1.duplicate();
            entries.push((key, value));
            i += 1;
        }
        proof {
            lemma_view_entries(entries@);
            assert(view_entries(entries@) =~= view_entries(self.entries@));
        }
        Dictionary { entries }
    }

    /// Whether the dictionary has no entries.
    pub fn is_empty(&self) -> (empty: bool)
        ensures
            empty == (self@.len() == 0),
    {
        self.len() == 0
    }

    /// The number of entries.
    pub fn len(&self) -> (n: usize)
        ensures
            n == self@.len(),
    {
        proof {
            lemma_view_entries(self.entries@);
        }
        self.entries.len()
    }
}

/// The position of a key lies within the entries or at their end; the keys
/// before it come before the key, and the key at it does not.
pub proof fn lemma_key_position(entries: Seq<(Seq<u8>, Tree)>, key: Seq<u8>)
    ensures
        0 <= key_position(entries, key) <= entries.len(),
        forall|k: int|
            0 <= k < key_position(entries, key) ==> lex_less((#[trigger] entries[k]).0, key),
        key_position(entries, key) < entries.len() ==> !lex_less(
            entries[key_position(entries, key)].0,
            key,
        ),
    decreases entries.len(),
{
    if entries.len() > 0 && lex_less(entries[0].0, key) {
        let rest = entries.skip(1);
        lemma_key_position(rest, key);
        assert forall|k: int| 0 <= k < key_position(entries, key) implies lex_less(
            (#[trigger] entries[k]).0,
            key,
        ) by {
            if k > 0 {
                assert(entries[k] == rest[k - 1]);
            }
        }
        if key_position(entries, key) < entries.len() {
            assert(entries[key_position(entries, key)] == rest[key_position(rest, key)]);
        }
    }
}

/// The position of a key is the one position with these two properties.
pub proof fn lemma_key_position_is(entries: Seq<(Seq<u8>, Tree)>, key: Seq<u8>, at: int)
    requires
        0 <= at <= entries.len(),
        forall|k: int| 0 <= k < at ==> lex_less((#[trigger] entries[k]).0, key),
        at < entries.len() ==> !lex_less(entries[at].0, key),
    ensures
        key_position(entries, key) == at,
    decreases entries.len(),
{
    if at > 0 {
        let rest = entries.skip(1);
        assert(lex_less(entries[0].0, key));
        assert forall|k: int| 0 <= k < at - 1 implies lex_less((#[trigger] rest[k]).0, key) by {
            assert(rest[k] == entries[k + 1]);
        }
        if at < entries.len() {
            assert(rest[at - 1] == entries[at]);
        }
        lemma_key_position_is(rest, key, at - 1);
    }
}

/// Binding a key keeps the keys in ascending order.
pub proof fn lemma_with_entry_ascends(entries: Seq<(Seq<u8>, Tree)>, key: Seq<u8>, tree: Tree)
    requires
        keys_ascend(entries),
    ensures
        keys_ascend(with_entry(entries, key, tree)),
{
    let at = key_position(entries, key);
    let after = with_entry(entries, key, tree);
    let same = at < entries.len() && entries[at].0 == key;
    lemma_key_position(entries, key);
    // Whatever stood at the position of the key or after it, and does not
    // hold the key itself, comes after the key.
    assert forall|k: int| at <= k < entries.len() && !(same && k == at) implies lex_less(
        key,
        (#[trigger] entries[k]).0,
    ) by {
        lemma_lex_less_total(entries[at].0, key);
        if k > at {
            assert(lex_less(entries[at].0, entries[k].0));
            if !same {
                lemma_lex_less_transitive(key, entries[at].0, entries[k].0);
            }
        }
    }
    assert forall|i: int, j: int| 0 <= i < j < after.len() implies lex_less(
        #[trigger] after[i].0,
        #[trigger] after[j].0,
    ) by {
        if same {
            if i != at {
                assert(after[i] == entries[i]);
            }
            if j != at {
                assert(after[j] == entries[j]);
            }
        } else {
            if i != at {
                assert(after[i] == entries[if i < at { i } else { i - 1 }]);
            }
            if j != at {
                assert(after[j] == entries[if j < at { j } else { j - 1 }]);
            }
        }
    }
}

/// The greatest depth among items is the least bound on the depth of each.
pub proof fn lemma_deepest(items: Seq<Tree>, bound: nat)
    ensures
        Tree::deepest(items) <= bound <==> forall|i: int|
            0 <= i < items.len() ==> (#[trigger] items[i]).depth() <= bound,
    decreases items.len(),
{
    if items.len() > 0 {
        let front = items.drop_last();
        lemma_deepest(front, bound);
        if Tree::deepest(items) <= bound {
            assert forall|i: int| 0 <= i < items.len() implies (#[trigger] items[i]).depth()
                <= bound by {
                if i < front.len() {
                    assert(front[i] == items[i]);
                }
            }
        } else if Tree::deepest(front) > bound {
            let i = choose|i: int| 0 <= i < front.len() && (#[trigger] front[i]).depth() > bound;
            assert(items[i] == front[i]);
        }
    }
}

/// The greatest depth among the values of entries is the least bound on the
/// depth of each.
pub proof fn lemma_deepest_entry(entries: Seq<(Seq<u8>, Tree)>, bound: nat)
    ensures
        Tree::deepest_entry(entries) <= bound <==> forall|i: int|
            0 <= i < entries.len() ==> (#[trigger] entries[i]).1.depth() <= bound,
    decreases entries.len(),
{
    if entries.len() > 0 {
        let front = entries.drop_last();
        lemma_deepest_entry(front, bound);
        if Tree::deepest_entry(entries) <= bound {
            assert forall|i: int| 0 <= i < entries.len() implies (#[trigger] entries[i]).1.depth()
                <= bound by {
                if i < front.len() {
                    assert(front[i] == entries[i]);
                }
            }
        } else if Tree::deepest_entry(front) > bound {
            let i = choose|i: int|
                0 <= i < front.len() && (#[trigger] front[i]).1.depth() > bound;
            assert(entries[i] == front[i]);
        }
    }
}

/// `view_entries` keeps the length and maps entry by entry.
pub proof fn lemma_view_entries(entries: Seq<(Vec<u8>, Value)>)
    ensures
        view_entries(entries).len() == entries.len(),
        forall|i: int|
            0 <= i < entries.len() ==> #[trigger] view_entries(entries)[i] == (
                entries[i].0@,
                entries[i].1@,
            ),
    decreases entries.len(),
{
    if entries.len() > 0 {
        lemma_view_entries(entries.drop_last());
        assert(view_entries(entries) == view_entries(entries.drop_last()).push(
            (entries.last().0@, entries.last().1.view()),
        ));
    } else {
        assert(view_entries(entries) == Seq::<(Seq<u8>, Tree)>::empty());
    }
}

/// `view_items` keeps the length and maps item by item.
pub proof fn lemma_view_items(items: Seq<Value>)
    ensures
        view_items(items).len() == items.len(),
        forall|i: int| 0 <= i < items.len() ==> #[trigger] view_items(items)[i] == items[i]@,
    decreases items.len(),
{
    if items.len() > 0 {
        lemma_view_items(items.drop_last());
        assert(view_items(items) == view_items(items.drop_last()).push(items.last().view()));
    } else {
        assert(view_items(items) == Seq::<Tree>::empty());
    }
}

} // verus!
