use vstd::prelude::*;

use ahash::AHashMap;

use crate::hashing::{name_positions, name_positions_get, name_positions_insert, name_positions_new};
use crate::serialize::collections::{serialize_str, spec_serialize_str};
use crate::serialize::primitives::encode_varint;
use crate::serialize::vectors::{after_prefix, parse_items, serialize_items};
use crate::serialize::{Decoding, Deserializable, Serializable};
use crate::serialize::traits::{reads_as, seq_result};

verus! {

/// A product's vendor: its name and its position in the vendor list.
#[derive(Debug, PartialEq, Eq)]
pub struct Vendor {
    pub name: String,
    pub id: usize,
}

impl View for Vendor {
    type V = (Seq<char>, usize);

    open spec fn view(&self) -> (Seq<char>, usize) {
        (self.name@, self.id)
    }
}

impl DeepView for Vendor {
    type V = (Seq<char>, usize);

    open spec fn deep_view(&self) -> (Seq<char>, usize) {
        self@
    }
}

impl Vendor {
    /// A copy of this vendor.
    pub fn copy(&self) -> (res: Vendor)
        ensures
            res@ == self@,
    {
        Vendor { name: self.name.clone(), id: self.id }
    }

    /// Whether two vendors have the same name and position.
    pub fn same_as(&self, other: &Vendor) -> (res: bool)
        ensures
            res == (self@ == other@),
    {
        self.name == other.name && self.id == other.id
    }
}

impl Serializable for Vendor {
    /// Only the name is written: the position follows from the order.
    open spec fn spec_serialize(v: (Seq<char>, usize)) -> Seq<u8> {
        spec_serialize_str(v.0)
    }

    fn serialize(&self, output: &mut Vec<u8>) {
        serialize_str(self.name.as_str(), output);
    }
}

/// The last position in `names` that holds `name`.
pub open spec fn last_position(names: Seq<Seq<char>>, name: Seq<char>) -> int
    decreases names.len(),
{
    if names.len() == 0 {
        -1
    } else if names.last() == name {
        names.len() - 1
    } else {
        last_position(names.drop_last(), name)
    }
}

/// The vendors, numbered in the order they were first seen, with a lookup by
/// name.
pub struct VendorManager {
    tags: AHashMap<String, usize>,
    by_id: Vec<Vendor>,
}

impl VendorManager {
    /// The vendor names, by position.
    pub closed spec fn names(&self) -> Seq<Seq<char>> {
        self.by_id@.map_values(|v: Vendor| v.name@)
    }

    /// Each vendor knows its position, and the lookup sends each name to the
    /// last position that holds it.
    pub closed spec fn wf(&self) -> bool {
        &&& forall|i: int| 0 <= i < self.by_id@.len() ==> #[trigger] self.by_id@[i].id == i
        &&& forall|k: Seq<char>| #[trigger]
            name_positions(self.tags).contains_key(k) <==> self.names().contains(k)
        &&& forall|k: Seq<char>| #[trigger]
            name_positions(self.tags).contains_key(k) ==> name_positions(self.tags)[k]
                == last_position(self.names(), k)
    }

    /// An empty vendor list.
    pub fn new() -> (res: VendorManager)
        ensures
            res.wf(),
            res.names() == Seq::<Seq<char>>::empty(),
    {
        let res = VendorManager { tags: name_positions_new(), by_id: Vec::new() };
        assert(res.names() =~= Seq::<Seq<char>>::empty());
        res
    }

    /// The number of vendors.
    pub fn len(&self) -> (res: usize)
        ensures
            res == self.names().len(),
    {
        self.by_id.len()
    }

    /// The vendor at a position.
    pub fn by_id(&self, id: usize) -> (res: Option<&Vendor>)
        requires
            self.wf(),
        ensures
            id < self.names().len() ==> (res matches Some(v) && v@ == (self.names()[id as int], id)),
            id >= self.names().len() ==> res is None,
    {
        if id < self.by_id.len() {
            Some(&self.by_id[id])
        } else {
            None
        }
    }

    /// The vendor with the given name, if there is one.
    pub fn get(&self, name: &str) -> (res: Option<&Vendor>)
        requires
            self.wf(),
        ensures
            res is Some <==> self.names().contains(name@),
            res matches Some(v) ==> v@ == (name@, last_position(self.names(), name@) as usize),
    {
        match name_positions_get(&self.tags, name) {
            Some(i) => {
                proof {
                    lemma_last_position(self.names(), name@);
                }
                Some(&self.by_id[i])
            },
            None => None,
        }
    }

    /// Adds a vendor name, unless it is there already.
    pub fn insert(&mut self, name: &str)
        requires
            old(self).wf(),
        ensures
            final(self).wf(),
            final(self).names() == with_vendor(old(self).names(), name@),
            old(self).names().contains(name@) ==> *final(self) == *old(self),
            final(self).names().contains(name@),
            last_position(final(self).names(), name@) == if old(self).names().contains(name@) {
                last_position(old(self).names(), name@)
            } else {
                old(self).names().len() as int
            },
    {
        proof {
            lemma_insert_then_get(self.names(), name@);
        }
        if name_positions_get(&self.tags, name).is_some() {
            return ;
        }
        let id = self.by_id.len();
        let ghost old_names = self.names();
        assert(!old_names.contains(name@));
        self.by_id.push(Vendor { name: name.to_string(), id });
        name_positions_insert(&mut self.tags, name.to_string(), id);
        proof {
            assert(self.names() =~= old_names.push(name@));
            lemma_last_position_push(old_names, name@);
            assert forall|k: Seq<char>| #[trigger]
                name_positions(self.tags).contains_key(k) <==> self.names().contains(k) by {
                assert(name_positions(old(self).tags).contains_key(k) <==> old_names.contains(k));
                if old_names.contains(k) {
                    let j = choose|j: int| 0 <= j < old_names.len() && old_names[j] == k;
                    assert(self.names()[j] == k);
                }
                if k != name@ && self.names().contains(k) {
                    let j = choose|j: int| 0 <= j < self.names().len() && self.names()[j] == k;
                    assert(old_names[j] == k);
                }
                if k == name@ {
                    assert(self.names()[old_names.len() as int] == k);
                }
            }
        }
    }

    /// The vendor with the given name, added first if it is not there.
    pub fn get_or_insert(&mut self, name: &str) -> (res: &Vendor)
        requires
            old(self).wf(),
        ensures
            final(self).wf(),
            final(self).names() == with_vendor(old(self).names(), name@),
            res@ == (name@, last_position(final(self).names(), name@) as usize),
    {
        self.insert(name);
        proof {
            assert(self.names().contains(name@)) by {
                if !old(self).names().contains(name@) {
                    assert(self.names()[self.names().len() - 1] == name@);
                }
            }
        }
        match self.get(name) {
            Some(v) => v,
            None => {
                proof {
                    assert(false);
                }
                &self.by_id[0]
            },
        }
    }

    /// Reads a vendor list: a count, then each name; positions follow the
    /// order.
    pub fn deserialize_arena(input: &[u8]) -> (res: Option<(&[u8], VendorManager)>)
        ensures
            reads_as::<VendorManager>(Vec::<String>::spec_deserialize(input@), input@, seq_result(res)),
            res matches Some((_, m)) ==> m.wf(),
    {
        let (rest, names) = Vec::<String>::deserialize(input)?;
        let mut out = VendorManager::new();
        let n = names.len();
        let mut i: usize = 0;
        while i < n
            invariant
                n == names@.len(),
                i <= n,
                out.wf(),
                out.by_id@.len() == i,
                out.names() == names.deep_view().take(i as int),
            decreases n - i,
        {
            let ghost old_names = out.names();
            let ghost old_tags = out.tags;
            out.by_id.push(Vendor { name: names[i].clone(), id: i });
            name_positions_insert(&mut out.tags, names[i].clone(), i);
            proof {
                let name = names.deep_view()[i as int];
                assert(out.names() =~= old_names.push(name));
                lemma_last_position_push(old_names, name);
                assert forall|k: Seq<char>| #[trigger]
                    name_positions(out.tags).contains_key(k) <==> out.names().contains(k) by {
                    assert(name_positions(old_tags).contains_key(k) <==> old_names.contains(k));
                    if old_names.contains(k) {
                        let j = choose|j: int| 0 <= j < old_names.len() && old_names[j] == k;
                        assert(out.names()[j] == k);
                    }
                    if k != name && out.names().contains(k) {
                        let j = choose|j: int| 0 <= j < out.names().len() && out.names()[j] == k;
                        assert(old_names[j] == k);
                    }
                    if k == name {
                        assert(out.names()[old_names.len() as int] == k);
                    }
                }
                assert(names.deep_view().take(i + 1) == names.deep_view().take(i as int).push(
                    names.deep_view()[i as int],
                ));
            }
            i = i + 1;
        }
        assert(names.deep_view().take(n as int) == names.deep_view());
        Some((rest, out))
    }
}

impl DeepView for VendorManager {
    type V = Seq<Seq<char>>;

    open spec fn deep_view(&self) -> Seq<Seq<char>> {
        self.names()
    }
}

impl Serializable for VendorManager {
    /// The names in position order, as a list of texts.
    open spec fn spec_serialize(v: Seq<Seq<char>>) -> Seq<u8> {
        Vec::<String>::spec_serialize(v)
    }

    fn serialize(&self, output: &mut Vec<u8>) {
        let ghost start = output@;
        self.by_id.len().serialize(output);
        let n = self.by_id.len();
        let mut i: usize = 0;
        while i < n
            invariant
                n == self.by_id@.len(),
                i <= n,
                output@ == start + encode_varint(n as nat) + serialize_items::<String>(
                    self.names().take(i as int),
                ),
            decreases n - i,
        {
            proof {
                crate::serialize::vectors::lemma_serialize_items_push::<String>(
                    self.names().take(i as int),
                    self.names()[i as int],
                );
                assert(self.names().take(i + 1) == self.names().take(i as int).push(
                    self.names()[i as int],
                ));
            }
            serialize_str(self.by_id[i].name.as_str(), output);
            i = i + 1;
        }
        assert(self.names().take(n as int) == self.names());
    }
}

impl Deserializable for VendorManager {
    open spec fn spec_deserialize(input: Seq<u8>) -> Decoding<Seq<Seq<char>>> {
        Vec::<String>::spec_deserialize(input)
    }

    fn deserialize(input: &[u8]) -> (res: Option<(&[u8], VendorManager)>) {
        Self::deserialize_arena(input)
    }
}

/// The vendor list after adding `name`, as `insert` leaves it.
pub open spec fn with_vendor(names: Seq<Seq<char>>, name: Seq<char>) -> Seq<Seq<char>> {
    if names.contains(name) {
        names
    } else {
        names.push(name)
    }
}

/// After a vendor is added, looking it up finds it at the position where
/// it was first added; adding it again changes nothing.
pub proof fn lemma_insert_then_get(names: Seq<Seq<char>>, name: Seq<char>)
    ensures
        with_vendor(names, name).contains(name),
        with_vendor(with_vendor(names, name), name) == with_vendor(names, name),
        names.contains(name) ==> last_position(with_vendor(names, name), name) == last_position(names, name),
        !names.contains(name) ==> last_position(with_vendor(names, name), name) == names.len(),
{
    if !names.contains(name) {
        assert(names.push(name)[names.len() as int] == name);
        lemma_last_position_push(names, name);
    }
}

proof fn lemma_last_position(names: Seq<Seq<char>>, name: Seq<char>)
    ensures
        -1 <= last_position(names, name) < names.len(),
        names.contains(name) <==> last_position(names, name) >= 0,
        last_position(names, name) >= 0 ==> names[last_position(names, name)] == name,
    decreases names.len(),
{
    if names.len() > 0 {
        lemma_last_position(names.drop_last(), name);
        if names.last() != name {
            if names.contains(name) {
                let i = choose|i: int| 0 <= i < names.len() && names[i] == name;
                assert(names.drop_last()[i] == name);
            }
            if names.drop_last().contains(name) {
                let i = choose|i: int| 0 <= i < names.drop_last().len() && names.drop_last()[i] == name;
                assert(names[i] == name);
            }
        }
    }
}

proof fn lemma_last_position_push(names: Seq<Seq<char>>, name: Seq<char>)
    ensures
        last_position(names.push(name), name) == names.len(),
        forall|k: Seq<char>| k != name ==> #[trigger] last_position(names.push(name), k)
            == last_position(names, k),
{
    assert(names.push(name).drop_last() == names);
}

} // verus!
