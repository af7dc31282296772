//! The queue names that a log refers to by number.
use vstd::hash_map::StringHashMap;
use vstd::prelude::*;
use vstd::utf8;

use crate::wire;
use crate::wire::{get_be, put_be};

verus! {

broadcast use crate::wire::lemma_be_len;

/// What `String::from_utf8_lossy` makes of a byte sequence that is not valid UTF-8.
pub uninterp spec fn utf8_lossy(data: Seq<u8>) -> Seq<char>;

/// The text that a byte sequence stands for.
pub open spec fn text_of(data: Seq<u8>) -> Seq<char> {
    if utf8::valid_utf8(data) {
        utf8::decode_utf8(data)
    } else {
        utf8_lossy(data)
    }
}

/// Calls `String::from_utf8_lossy`, which decodes valid UTF-8 and puts replacement
/// characters in place of what is not valid. What comes out in the second case is left
/// to the name.
#[verifier::external_body]
fn from_utf8_lossy(data: &[u8]) -> (text: String)
    ensures
        text@ == if utf8::valid_utf8(data@) {
            utf8::decode_utf8(data@)
        } else {
            utf8_lossy(data@)
        },
{
    String::from_utf8_lossy(data).to_string()
}

pub open spec fn text_views(texts: Seq<String>) -> Seq<Seq<char>> {
    texts.map_values(|t: String| t@)
}

/// The mathematical content of a [`QueueRegistry`].
#[verifier::ext_equal]
pub struct RegistryView {
    pub ids: Map<Seq<char>, u16>,
    pub names: Seq<Seq<char>>,
}

/// The length of the manifest entry at the start of `data`, if it is all there.
pub open spec fn manifest_entry_len(data: Seq<u8>) -> Option<nat> {
    if data.len() < 4 {
        None
    } else {
        let len = wire::be_value(data.subrange(2, 4));
        if data.len() - 4 < len {
            None
        } else {
            Some(4 + len)
        }
    }
}

/// A manifest entry: the queue's number, the length of its name, its name.
pub open spec fn manifest_entry(id: u16, name: Seq<char>) -> Seq<u8> {
    wire::be(id as nat, 2) + wire::be(utf8::encode_utf8(name).len(), 2) + utf8::encode_utf8(name)
}

impl RegistryView {
    pub open spec fn empty() -> RegistryView {
        RegistryView { ids: Map::empty(), names: Seq::empty() }
    }

    /// Gives the name `id`, whatever had it before.
    pub open spec fn assign(self, id: u16, name: Seq<char>) -> RegistryView {
        let padded = if id < self.names.len() {
            self.names
        } else {
            self.names + Seq::new((id + 1 - self.names.len()) as nat, |i: int| Seq::empty())
        };
        RegistryView { ids: self.ids.insert(name, id), names: padded.update(id as int, name) }
    }

    /// The registry after the manifest entries in `data`, up to the first that is not
    /// all there.
    pub open spec fn load(self, data: Seq<u8>) -> RegistryView
        decreases data.len(),
    {
        match manifest_entry_len(data) {
            Some(n) => self.assign(
                wire::be_value(data.subrange(0, 2)) as u16,
                text_of(data.subrange(4, n as int)),
            ).load(data.skip(n as int)),
            None => self,
        }
    }

    /// The number that the next new name gets.
    pub open spec fn next_id(self) -> u16 {
        (self.names.len() % 0x1_0000) as u16
    }

    pub open spec fn register(self, name: Seq<char>) -> RegistryView {
        if self.ids.contains_key(name) {
            self
        } else {
            RegistryView {
                ids: self.ids.insert(name, self.next_id()),
                names: self.names.push(name),
            }
        }
    }

    /// The number that a registered or new name has.
    pub open spec fn id_of(self, name: Seq<char>) -> u16 {
        if self.ids.contains_key(name) {
            self.ids[name]
        } else {
            self.next_id()
        }
    }

    pub open spec fn name_of(self, id: u16) -> Option<Seq<char>> {
        if id < self.names.len() {
            Some(self.names[id as int])
        } else {
            None
        }
    }
}

/// Queue names and their numbers, in both directions.
pub struct QueueRegistry {
    name_to_id: StringHashMap<u16>,
    id_to_name: Vec<String>,
}

impl View for QueueRegistry {
    type V = RegistryView;

    closed spec fn view(&self) -> RegistryView {
        RegistryView { ids: self.name_to_id@, names: text_views(self.id_to_name@) }
    }
}

impl QueueRegistry {
    /// Reads the registry from the bytes of its manifest. An incomplete last entry is
    /// dropped.
    pub fn open(manifest: &[u8]) -> (res: Self)
        ensures
            res@ == RegistryView::empty().load(manifest@),
    {
        let mut res = QueueRegistry { name_to_id: StringHashMap::new(), id_to_name: Vec::new() };
        let mut pos: usize = 0;
        proof {
            assert(res@ =~= RegistryView::empty());
            assert(manifest@.skip(0) =~= manifest@);
        }
        while manifest.len() - pos >= 4
            invariant_except_break
                pos <= manifest.len(),
                res@.load(manifest@.skip(pos as int)) == RegistryView::empty().load(manifest@),
            ensures
                res@ == RegistryView::empty().load(manifest@),
            decreases manifest.len() - pos,
        {
            let ghost rest = manifest@.skip(pos as int);
            let id: u16 = get_be(manifest, pos, 2) as u16;
            let len: usize = get_be(manifest, pos + 2, 2) as usize;
            proof {
                wire::lemma_be_widths();
                assert(rest.subrange(0, 2) =~= manifest@.subrange(pos as int, pos + 2));
                assert(rest.subrange(2, 4) =~= manifest@.subrange(pos + 2, pos + 4));
            }
            pos += 4;
            if manifest.len() - pos < len {
                break;
            }
            let name: String = from_utf8_lossy(vstd::slice::slice_subrange(manifest, pos, pos + len));
            proof {
                assert(rest.subrange(4, 4 + len) =~= manifest@.subrange(pos as int, pos + len));
                assert(rest.skip(4 + len) =~= manifest@.skip(pos + len));
            }
            pos += len;
            res.assign(id, name);
        }
        res
    }

    fn assign(&mut self, id: u16, name: String)
        ensures
            final(self)@ == old(self)@.assign(id, name@),
    {
        let ghost names = old(self)@.names;
        let mut missing: usize = 0;
        if id as usize >= self.id_to_name.len() {
            missing = id as usize + 1 - self.id_to_name.len();
        }
        let mut added: usize = 0;
        while added < missing
            invariant
                added <= missing,
                text_views(self.id_to_name@) == names + Seq::new(added as nat, |i: int| Seq::empty()),
                self.name_to_id == old(self).name_to_id,
            decreases missing - added,
        {
            let ghost prior = self.id_to_name@;
            self.id_to_name.push(String::new());
            added += 1;
            proof {
                assert(text_views(self.id_to_name@) =~= text_views(prior).push(Seq::empty()));
                assert(text_views(self.id_to_name@) =~= names + Seq::new(
                    added as nat,
                    |i: int| Seq::empty(),
                ));
            }
        }
        self.name_to_id.insert(name.clone(), id);
        self.id_to_name[id as usize] = name;
        proof {
            assert(self@ =~~= old(self)@.assign(id, name@));
        }
    }

    /// The number of a queue name. A new name gets the next number, and the manifest
    /// entry to be written for it is handed back.
    pub fn get_or_register(&mut self, queue_name: &str) -> (res: (u16, Option<Vec<u8>>))
        ensures
            final(self)@ == old(self)@.register(queue_name@),
            res.0 == old(self)@.id_of(queue_name@),
            match res.1 {
                None => old(self)@.ids.contains_key(queue_name@),
                Some(entry) => !old(self)@.ids.contains_key(queue_name@) && entry@
                    == manifest_entry(res.0, queue_name@),
            },
    {
        match self.name_to_id.get(queue_name) {
            Some(id) => {
                return (*id, None);
            },
            None => {},
        }
        let next_id: u16 = (self.id_to_name.len() % 0x1_0000) as u16;
        let name_bytes: &[u8] = queue_name.as_bytes();
        let mut entry: Vec<u8> = Vec::new();
        put_be(&mut entry, next_id as u128, 2);
        put_be(&mut entry, name_bytes.len() as u128, 2);
        entry.extend_from_slice(name_bytes);
        self.name_to_id.insert(queue_name.to_owned(), next_id);
        self.id_to_name.push(queue_name.to_owned());
        proof {
            assert(entry@ =~= manifest_entry(next_id, queue_name@));
            assert(self@ =~~= old(self)@.register(queue_name@));
        }
        (next_id, Some(entry))
    }

    pub fn get_name(&self, id: u16) -> (name: Option<String>)
        ensures
            match name {
                Some(n) => self@.name_of(id) == Some(n@),
                None => self@.name_of(id) is None,
            },
    {
        if (id as usize) < self.id_to_name.len() {
            Some(self.id_to_name[id as usize].clone())
        } else {
            None
        }
    }
}

/// The manifest holds whole entries only.
pub open spec fn manifest_is_whole(data: Seq<u8>) -> bool
    decreases data.len(),
{
    data.len() == 0 || match manifest_entry_len(data) {
        Some(n) => manifest_is_whole(data.skip(n as int)),
        None => false,
    }
}

proof fn lemma_load_appended(reg: RegistryView, data: Seq<u8>, more: Seq<u8>)
    requires
        manifest_is_whole(data),
    ensures
        reg.load(data + more) == reg.load(data).load(more),
        manifest_is_whole(more) ==> manifest_is_whole(data + more),
    decreases data.len(),
{
    let all = data + more;
    if data.len() == 0 {
        assert(all =~= more);
    } else {
        let n = manifest_entry_len(data).unwrap();
        assert(all.subrange(0, 2) =~= data.subrange(0, 2));
        assert(all.subrange(2, 4) =~= data.subrange(2, 4));
        assert(all.subrange(4, n as int) =~= data.subrange(4, n as int));
        assert(all.skip(n as int) =~= data.skip(n as int) + more);
        let next = reg.assign(
            wire::be_value(data.subrange(0, 2)) as u16,
            text_of(data.subrange(4, n as int)),
        );
        lemma_load_appended(next, data.skip(n as int), more);
    }
}

/// The registry that is read back from a manifest is the one that wrote it: registering a
/// new name and loading the manifest with the entry appended come to the same.
pub proof fn law_registered_name_is_read_back(manifest: Seq<u8>, name: Seq<char>)
    requires
        manifest_is_whole(manifest),
        !RegistryView::empty().load(manifest).ids.contains_key(name),
        RegistryView::empty().load(manifest).names.len() < 0x1_0000,
        utf8::encode_utf8(name).len() < 0x1_0000,
    ensures
        ({
            let reg = RegistryView::empty().load(manifest);
            let entry = manifest_entry(reg.next_id(), name);
            &&& manifest_is_whole(manifest + entry)
            &&& RegistryView::empty().load(manifest + entry) == reg.register(name)
        }),
{
    let reg = RegistryView::empty().load(manifest);
    let id = reg.next_id();
    let bytes = utf8::encode_utf8(name);
    let entry = manifest_entry(id, name);
    wire::lemma_be_widths();
    wire::law_be_round_trip(id as nat, 2);
    wire::law_be_round_trip(bytes.len(), 2);
    assert(entry.subrange(0, 2) =~= wire::be(id as nat, 2));
    assert(entry.subrange(2, 4) =~= wire::be(bytes.len(), 2));
    assert(entry.subrange(4, entry.len() as int) =~= bytes);
    assert(entry.skip(entry.len() as int) =~= Seq::empty());
    utf8::encode_utf8_valid_utf8(name);
    utf8::encode_utf8_decode_utf8(name);
    assert(manifest_is_whole(Seq::empty()));
    assert(manifest_is_whole(entry));
    lemma_load_appended(RegistryView::empty(), manifest, entry);
    assert(reg.assign(id, name) =~= reg.register(name));
    assert(reg.assign(id, name).load(Seq::empty()) == reg.assign(id, name));
}

/// Asking for a name twice gives the same number and registers it once.
pub proof fn law_registration_is_stable(reg: RegistryView, name: Seq<char>)
    ensures
        reg.register(name).register(name) == reg.register(name),
        reg.register(name).id_of(name) == reg.id_of(name),
{
}

/// A registered name is found under its number, as long as numbers have not run out.
pub proof fn law_registered_name_is_found(reg: RegistryView, name: Seq<char>)
    requires
        !reg.ids.contains_key(name),
        reg.names.len() < 0x1_0000,
    ensures
        reg.register(name).name_of(reg.id_of(name)) == Some(name),
{
}

/// The numbers of the names are 0, 1, 2 and so on, each used once.
pub open spec fn is_dense(reg: RegistryView) -> bool {
    &&& reg.names.len() <= 0x1_0000
    &&& forall|i: int, j: int|
        0 <= i < j < reg.names.len() ==> #[trigger] reg.names[i] != #[trigger] reg.names[j]
    &&& forall|i: int|
        0 <= i < reg.names.len() ==> reg.ids.contains_key(#[trigger] reg.names[i])
            && reg.ids[reg.names[i]] == i
    &&& forall|name: Seq<char>| #[trigger]
        reg.ids.contains_key(name) ==> reg.names.contains(name)
}

/// Registering a name keeps the numbers dense, as long as they have not run out.
pub proof fn law_registration_keeps_numbers_dense(reg: RegistryView, name: Seq<char>)
    requires
        is_dense(reg),
        reg.ids.contains_key(name) || reg.names.len() < 0x1_0000,
    ensures
        is_dense(reg.register(name)),
        reg.register(name).ids.contains_key(name),
{
    if !reg.ids.contains_key(name) {
        let after = reg.register(name);
        let n = reg.names.len() as int;
        assert(after.names[n] == name);
        assert forall|i: int| 0 <= i < after.names.len() implies after.ids.contains_key(
            #[trigger] after.names[i],
        ) && after.ids[after.names[i]] == i by {
            if i < n {
                assert(after.names[i] == reg.names[i]);
            }
        }
        assert forall|i: int, j: int| 0 <= i < j < after.names.len() implies #[trigger] after.names[i]
            != #[trigger] after.names[j] by {
            assert(after.names[i] == reg.names[i]);
            if j < n {
                assert(after.names[j] == reg.names[j]);
            }
        }
        assert forall|other: Seq<char>| #[trigger]
            after.ids.contains_key(other) implies after.names.contains(other) by {
            if other != name {
                assert(reg.names.contains(other));
                let i = choose|i: int| 0 <= i < n && reg.names[i] == other;
                assert(after.names[i] == other);
            }
        }
    }
}

/// The registry after names have been asked for one behind the other, and the manifest that
/// this wrote.
pub open spec fn register_all(names: Seq<Seq<char>>) -> (RegistryView, Seq<u8>)
    decreases names.len(),
{
    if names.len() == 0 {
        (RegistryView::empty(), Seq::empty())
    } else {
        let (reg, manifest) = register_all(names.drop_last());
        let name = names.last();
        if reg.ids.contains_key(name) {
            (reg, manifest)
        } else {
            (reg.register(name), manifest + manifest_entry(reg.next_id(), name))
        }
    }
}

/// Whatever names are asked for, and however often, the numbers given out are 0, 1, 2 and so
/// on, one for each name, and they are the same when the manifest is read again. There must
/// not be more names than numbers, and the names' lengths have to be countable.
pub proof fn law_numbers_are_dense_and_last(names: Seq<Seq<char>>)
    requires
        names.to_set().len() <= 0x1_0000,
        forall|i: int|
            0 <= i < names.len() ==> utf8::encode_utf8(#[trigger] names[i]).len() < 0x1_0000,
    ensures
        ({
            let (reg, manifest) = register_all(names);
            &&& is_dense(reg)
            &&& reg.names.to_set() == names.to_set()
            &&& reg.names.len() == names.to_set().len()
            &&& forall|i: int| 0 <= i < names.len() ==> reg.ids.contains_key(#[trigger] names[i])
            &&& manifest_is_whole(manifest)
            &&& RegistryView::empty().load(manifest) == reg
        }),
    decreases names.len(),
{
    vstd::seq_lib::seq_to_set_is_finite(names);
    if names.len() > 0 {
        let head = names.drop_last();
        let last = names[names.len() - 1];
        assert forall|i: int| 0 <= i < head.len() implies utf8::encode_utf8(#[trigger] head[i]).len()
            < 0x1_0000 by {
            assert(head[i] == names[i]);
        }
        vstd::seq_lib::seq_to_set_is_finite(head);
        assert(names =~= head.push(last));
        assert(names.to_set() =~= head.to_set().insert(last)) by {
            assert forall|x: Seq<char>| names.to_set().contains(x) == head.to_set().insert(
                last,
            ).contains(x) by {
                if names.contains(x) && x != last {
                    let k = choose|k: int| 0 <= k < names.len() && names[k] == x;
                    assert(head[k] == x);
                }
                if head.contains(x) {
                    let k = choose|k: int| 0 <= k < head.len() && head[k] == x;
                    assert(names[k] == x);
                }
                assert(names[names.len() - 1] == last);
            }
        }
        law_numbers_are_dense_and_last(head);
        let (reg, manifest) = register_all(head);
        assert(reg.ids.contains_key(last) == head.to_set().contains(last)) by {
            if reg.ids.contains_key(last) {
                assert(reg.names.to_set().contains(last));
            }
            if head.to_set().contains(last) {
                let k = choose|k: int| 0 <= k < head.len() && head[k] == last;
                assert(reg.ids.contains_key(head[k]));
            }
        }
        law_registration_keeps_numbers_dense(reg, last);
        let after = register_all(names).0;
        if reg.ids.contains_key(last) {
            assert(head.to_set().insert(last) =~= head.to_set());
        } else {
            law_registered_name_is_read_back(manifest, last);
            assert(after.names =~= reg.names.push(last));
            assert(after.names.to_set() =~= reg.names.to_set().insert(last)) by {
                assert forall|x: Seq<char>| after.names.to_set().contains(x)
                    == reg.names.to_set().insert(last).contains(x) by {
                    if after.names.contains(x) && x != last {
                        let k = choose|k: int| 0 <= k < after.names.len() && after.names[k] == x;
                        assert(reg.names[k] == x);
                    }
                    if reg.names.contains(x) {
                        let k = choose|k: int| 0 <= k < reg.names.len() && reg.names[k] == x;
                        assert(after.names[k] == x);
                    }
                    assert(after.names[reg.names.len() as int] == last);
                }
            }
        }
        assert forall|i: int| 0 <= i < names.len() implies after.ids.contains_key(
            #[trigger] names[i],
        ) by {
            if i < head.len() {
                assert(head[i] == names[i]);
            }
        }
    } else {
        assert(names.to_set() =~= Set::empty());
        assert(register_all(names).0.names.to_set() =~= Set::empty());
    }
}

}
