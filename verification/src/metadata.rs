//! Metadata: the run of named properties that a READY command carries.
//!
//! property = name value
//! name = short-size 1*255name-char
//! name-char = ALPHA | DIGIT | "-" | "_" | "." | "+"
//! value = 4OCTET *OCTET       ; size in network byte order

use crate::octets::{same_bytes, Borrowed, ByteSlice, Octets};
use crate::reader::{
    bad_name_char_within, be32, be_u32, be_u8, name_char, parsed_as, take, take_name_chars,
    Outcome, ParseError,
};
use crate::shared::shared_octets;
use vstd::prelude::*;

verus! {

/// The map that a run of properties spells: each name maps to the value that
/// was written under it last.
pub open spec fn pairs_map(pairs: Seq<(Seq<u8>, Seq<u8>)>) -> Map<Seq<u8>, Seq<u8>>
    decreases pairs.len(),
{
    if pairs.len() == 0 {
        Map::empty()
    } else {
        pairs_map(pairs.drop_last()).insert(pairs.last().0, pairs.last().1)
    }
}

/// The properties of a READY command: a map from names to opaque values.
///
/// Names are kept as they were written; no name occurs twice.
#[derive(Debug, Clone)]
pub struct MetaData<S, T> {
    properties: Vec<(S, ByteSlice<T>)>,
}

impl<S, T> MetaData<S, T> {
    /// The properties as they are stored.
    pub closed spec fn items(&self) -> Seq<(S, ByteSlice<T>)> {
        self.properties@
    }

    /// The number of properties.
    pub fn len(&self) -> (n: usize)
        ensures
            n == self.items().len(),
    {
        self.properties.len()
    }
}

impl<S: Octets, T: Octets> MetaData<S, T> {
    /// The names and values of the properties, as bytes, in stored order.
    pub open spec fn pairs(&self) -> Seq<(Seq<u8>, Seq<u8>)> {
        Seq::new(self.items().len(), |i: int| (self.items()[i].0.octets(), self.items()[i].1@))
    }

    /// No name occurs twice.
    pub open spec fn wf(&self) -> bool {
        forall|i: int, j: int|
            0 <= i < j < self.items().len() ==> self.pairs()[i].0 != self.pairs()[j].0
    }

    /// No properties.
    pub fn new() -> (md: Self)
        ensures
            md.items() == Seq::<(S, ByteSlice<T>)>::empty(),
            md@ == Map::<Seq<u8>, Seq<u8>>::empty(),
            md.wf(),
    {
        let md = MetaData { properties: Vec::new() };
        assert(md.pairs() =~= Seq::empty());
        md
    }

    /// The name of the property at `index`, counted in stored order; `None`
    /// where there are `index` properties or fewer.
    pub fn name_at(&self, index: usize) -> (name: Option<&S>)
        ensures
            match name {
                Some(name) => index < self.items().len() && *name == self.items()[index as int].0,
                None => index >= self.items().len(),
            },
    {
        if index < self.properties.len() {
            Some(&self.properties[index].0)
        } else {
            None
        }
    }

    /// The value of the property at `index`, counted in stored order; `None`
    /// where there are `index` properties or fewer.
    pub fn value_at(&self, index: usize) -> (value: Option<&ByteSlice<T>>)
        ensures
            match value {
                Some(value) => index < self.items().len() && *value == self.items()[index as int].1,
                None => index >= self.items().len(),
            },
    {
        if index < self.properties.len() {
            Some(&self.properties[index].1)
        } else {
            None
        }
    }

    /// The value written under `name`, if there is one.
    pub fn get(&self, name: &[u8]) -> (found: Option<&ByteSlice<T>>)
        ensures
            match found {
                Some(value) => self@.contains_key(name@) && value@ == self@[name@],
                None => !self@.contains_key(name@),
            },
    {
        let mut i: usize = self.properties.len();
        proof {
            assert(self.pairs().take(i as int) =~= self.pairs());
        }
        while i > 0
            invariant
                i <= self.items().len(),
                self.items() == self.properties@,
                self@.contains_key(name@) == pairs_map(self.pairs().take(i as int)).contains_key(
                    name@,
                ),
                self@.contains_key(name@) ==> self@[name@] == pairs_map(
                    self.pairs().take(i as int),
                )[name@],
            decreases i,
        {
            i -= 1;
            proof {
                let upto = self.pairs().take(i as int + 1);
                assert(upto.drop_last() =~= self.pairs().take(i as int));
                assert(upto.last() == self.pairs()[i as int]);
            }
            if same_bytes(self.properties[i].0.as_octets(), name) {
                return Some(&self.properties[i].1);
            }
        }
        None
    }

    /// Writes `value` under `name`, in place of what was written there before.
    pub fn insert(&mut self, name: S, value: ByteSlice<T>)
        requires
            old(self).wf(),
        ensures
            final(self).wf(),
            final(self)@ == old(self)@.insert(name.octets(), value@),
            match old(self).position(name.octets()) {
                Some(i) => final(self).items() == old(self).items().update(
                    i,
                    (old(self).items()[i].0, value),
                ),
                None => final(self).items() == old(self).items().push((name, value)),
            },
    {
        let mut i: usize = 0;
        while i < self.properties.len()
            invariant
                i <= self.items().len(),
                self.items() == self.properties@,
                *self == *old(self),
                old(self).wf(),
                forall|k: int| 0 <= k < i ==> self.pairs()[k].0 != name.octets(),
            decreases self.items().len() - i,
        {
            if same_bytes(self.properties[i].0.as_octets(), name.as_octets()) {
                proof {
                    old(self).lemma_position(name.octets(), i as int);
                    lemma_pairs_map_update(old(self).pairs(), i as int, value@);
                }
                self.properties[i].1 = value;
                proof {
                    assert(self.pairs() =~= old(self).pairs().update(
                        i as int,
                        (name.octets(), value@),
                    ));
                }
                return ;
            }
            i += 1;
        }
        proof {
            old(self).lemma_position_none(name.octets());
        }
        self.properties.push((name, value));
        proof {
            assert(self.pairs() =~= old(self).pairs().push((name.octets(), value@)));
            assert(self.pairs().drop_last() =~= old(self).pairs());
        }
    }

    /// Where `name` stands among the stored properties.
    pub open spec fn position(&self, name: Seq<u8>) -> Option<int> {
        if exists|i: int| 0 <= i < self.items().len() && self.pairs()[i].0 == name {
            Some(choose|i: int| 0 <= i < self.items().len() && self.pairs()[i].0 == name)
        } else {
            None
        }
    }

    /// Where no name occurs twice, a name stands where it is found.
    pub proof fn lemma_position(&self, name: Seq<u8>, i: int)
        requires
            self.wf(),
            0 <= i < self.items().len(),
            self.pairs()[i].0 == name,
        ensures
            self.position(name) == Some(i),
    {
    }

    /// A name that no stored property has stands nowhere.
    pub proof fn lemma_position_none(&self, name: Seq<u8>)
        requires
            forall|k: int| 0 <= k < self.items().len() ==> self.pairs()[k].0 != name,
        ensures
            self.position(name) is None,
    {
    }
}

impl<S: Octets, T: Octets> View for MetaData<S, T> {
    type V = Map<Seq<u8>, Seq<u8>>;

    open spec fn view(&self) -> Map<Seq<u8>, Seq<u8>> {
        pairs_map(self.pairs())
    }
}

/// Where no name occurs twice, rewriting the value at one place is an insert
/// into the map.
pub proof fn lemma_pairs_map_update(pairs: Seq<(Seq<u8>, Seq<u8>)>, i: int, value: Seq<u8>)
    requires
        0 <= i < pairs.len(),
        forall|a: int, b: int| 0 <= a < b < pairs.len() ==> pairs[a].0 != pairs[b].0,
    ensures
        pairs_map(pairs.update(i, (pairs[i].0, value))) == pairs_map(pairs).insert(
            pairs[i].0,
            value,
        ),
    decreases pairs.len(),
{
    let updated = pairs.update(i, (pairs[i].0, value));
    if i == pairs.len() - 1 {
        assert(updated.drop_last() =~= pairs.drop_last());
        assert(pairs_map(updated) =~= pairs_map(pairs).insert(pairs[i].0, value));
    } else {
        lemma_pairs_map_update(pairs.drop_last(), i, value);
        assert(updated.drop_last() =~= pairs.drop_last().update(i, (pairs[i].0, value)));
        assert(updated.last() == pairs.last());
        assert(pairs_map(updated) =~= pairs_map(pairs).insert(pairs[i].0, value));
    }
}

impl<'a> MetaData<Borrowed<'a>, Borrowed<'a>> {
    /// Whether every name and value is a part of `input`, which starts `origin`
    /// bytes into what the offsets count from.
    pub closed spec fn cut_at(&self, input: Seq<u8>, origin: nat) -> bool {
        forall|i: int|
            0 <= i < self.properties@.len() ==> {
                &&& (#[trigger] self.properties@[i]).0.cut_at(input, origin)
                &&& self.properties@[i].1.0.cut_at(input, origin)
            }
    }

    /// Whether every name and value was cut from `base` at the offset it
    /// remembers.
    pub open spec fn cut_from(&self, base: Seq<u8>) -> bool {
        self.cut_at(base, 0)
    }

    /// Writing a property that is a part of `input` into properties that are
    /// parts of `input` leaves properties that are parts of `input`.
    proof fn lemma_insert_cut(
        &self,
        after: &Self,
        name: Borrowed<'a>,
        value: ByteSlice<Borrowed<'a>>,
        input: Seq<u8>,
        origin: nat,
    )
        requires
            self.cut_at(input, origin),
            name.cut_at(input, origin),
            value.0.cut_at(input, origin),
            match self.position(name.octets()) {
                Some(i) => 0 <= i < self.items().len() && after.items() == self.items().update(
                    i,
                    (self.items()[i].0, value),
                ),
                None => after.items() == self.items().push((name, value)),
            },
        ensures
            after.cut_at(input, origin),
    {
        assert forall|i: int| 0 <= i < after.properties@.len() implies {
            &&& (#[trigger] after.properties@[i]).0.cut_at(input, origin)
            &&& after.properties@[i].1.0.cut_at(input, origin)
        } by {
            if i < self.properties@.len() {
                assert(self.properties@[i].0.cut_at(input, origin));
            }
        }
    }

    /// Properties cut from a part of `whole` are cut from `whole`.
    pub proof fn lemma_cut_wider(&self, input: Seq<u8>, whole: Seq<u8>, origin: nat, k: nat)
        requires
            k + input.len() <= whole.len(),
            input == whole.subrange(k as int, k as int + input.len()),
            self.cut_at(input, origin + k),
        ensures
            self.cut_at(whole, origin),
    {
        assert forall|i: int| 0 <= i < self.properties@.len() implies {
            &&& (#[trigger] self.properties@[i]).0.cut_at(whole, origin)
            &&& self.properties@[i].1.0.cut_at(whole, origin)
        } by {
            self.properties@[i].0.lemma_cut_wider(input, whole, origin, k);
            self.properties@[i].1.0.lemma_cut_wider(input, whole, origin, k);
        }
    }
}

impl MetaData<bytes::Bytes, bytes::Bytes> {
    /// The owned form of `meta_data`: every name and value as a share of
    /// `buffer`, which they were cut from.
    pub fn from_borrowed(
        buffer: &bytes::Bytes,
        meta_data: MetaData<Borrowed<'_>, Borrowed<'_>>,
    ) -> (owned: Self)
        requires
            meta_data.cut_from(shared_octets(*buffer)),
        ensures
            owned@ == meta_data@,
            owned.wf() == meta_data.wf(),
    {
        let mut properties: Vec<(bytes::Bytes, ByteSlice<bytes::Bytes>)> = Vec::new();
        let mut i: usize = 0;
        while i < meta_data.properties.len()
            invariant
                i <= meta_data.properties@.len(),
                properties@.len() == i,
                meta_data.cut_at(shared_octets(*buffer), 0),
                forall|k: int|
                    0 <= k < i ==> {
                        &&& (#[trigger] properties@[k]).0.octets()
                            == meta_data.properties@[k].0.octets()
                        &&& properties@[k].1@ == meta_data.properties@[k].1@
                    },
            decreases meta_data.properties@.len() - i,
        {
            let name = meta_data.properties[i].0;
            let value = meta_data.properties[i].1.0;
            assert(meta_data.properties@[i as int].0.cut_at(shared_octets(*buffer), 0));
            properties.push((name.to_shared(buffer), ByteSlice(value.to_shared(buffer))));
            i += 1;
        }
        let owned = MetaData { properties };
        proof {
            assert(owned.pairs() =~= meta_data.pairs());
        }
        owned
    }
}

/// The property at the front of `s`: one octet of name length, which is not 0;
/// that many name characters; four octets of value length, big-endian; that
/// many bytes of value.
#[verifier::opaque]
pub open spec fn property_spec(s: Seq<u8>) -> Outcome<(Seq<u8>, Seq<u8>)> {
    if s.len() < 1 {
        Outcome::Incomplete
    } else {
        let n = s[0] as int;
        if n == 0 {
            Outcome::Malformed { offset: 0 }
        } else if bad_name_char_within(s.skip(1), n as nat) {
            Outcome::Malformed { offset: 1 }
        } else if s.len() < 1 + n + 4 {
            Outcome::Incomplete
        } else {
            let value_len = be32(s.skip(1 + n)) as int;
            if s.len() < 5 + n + value_len {
                Outcome::Incomplete
            } else {
                Outcome::Parsed {
                    value: (s.subrange(1, 1 + n), s.subrange(5 + n, 5 + n + value_len)),
                    consumed: (5 + n + value_len) as nat,
                }
            }
        }
    }
}

/// Parses a single property from the front of `input`, which starts `base`
/// bytes into the frame body.
fn property<'a>(input: &'a [u8], base: usize) -> (r: Result<
    (&'a [u8], (Borrowed<'a>, ByteSlice<Borrowed<'a>>)),
    ParseError,
>)
    requires
        base + input@.len() <= usize::MAX,
    ensures
        match r {
            Ok((rest, (name, value))) => {
                &&& parsed_as(property_spec(input@), (name.octets(), value@), input@, rest@)
                &&& rest@.len() < input@.len()
                &&& name.cut_at(input@, base as nat)
                &&& value.0.cut_at(input@, base as nat)
            },
            Err(e) => e.reports(property_spec(input@)) && e.within(input@.len()),
        },
{
    proof {
        reveal(property_spec);
    }
    let (after_len, name_len) = match be_u8(input) {
        Ok(v) => v,
        Err(e) => return Err(e.at(0)),
    };
    if name_len == 0 {
        return Err(ParseError::Malformed { offset: 0 });
    }
    let (after_name, name) = match take_name_chars(after_len, name_len as usize) {
        Ok(v) => v,
        Err(e) => return Err(e.at(1)),
    };
    let (after_size, value_len) = match be_u32(after_name) {
        Ok(v) => v,
        Err(e) => return Err(e.at(1 + name_len as usize)),
    };
    let (rest, value) = match take(after_size, value_len as usize) {
        Ok(v) => v,
        Err(e) => return Err(e.at(5 + name_len as usize)),
    };
    proof {
        let n = name_len as int;
        assert(after_name@ == input@.skip(1 + n));
        assert(after_size@ == input@.skip(5 + n));
        assert(rest@ == input@.skip(5 + n + value_len));
        assert(name@ == input@.subrange(1, 1 + n));
        assert(value@ == input@.subrange(5 + n, 5 + n + value_len));
    }
    Ok(
        (
            rest,
            (
                Borrowed { bytes: name, offset: base + 1 },
                ByteSlice(Borrowed { bytes: value, offset: base + 5 + name_len as usize }),
            ),
        ),
    )
}

/// A run of properties that fills `w` exactly, written one after another
/// into `acc`. `closed` says that `w` ends where the declared length ends, so
/// that a property cut off by the end of `w` can never be completed: it runs
/// past the declared length and is refused where it starts.
pub open spec fn properties_spec(w: Seq<u8>, acc: Map<Seq<u8>, Seq<u8>>, closed: bool) -> Outcome<
    Map<Seq<u8>, Seq<u8>>,
>
    decreases w.len(),
{
    if w.len() == 0 {
        Outcome::Parsed { value: acc, consumed: 0 }
    } else {
        match property_spec(w) {
            Outcome::Parsed { value: (name, value), consumed } => {
                if 0 < consumed <= w.len() {
                    properties_spec(w.skip(consumed as int), acc.insert(name, value), closed).after(
                        consumed,
                    )
                } else {
                    Outcome::Incomplete
                }
            },
            Outcome::Incomplete => if closed {
                Outcome::Malformed { offset: 0 }
            } else {
                Outcome::Incomplete
            },
            Outcome::Malformed { offset } => Outcome::Malformed { offset },
        }
    }
}

/// The metadata at the front of `s`: properties, one after another, that
/// together take exactly `data_len` bytes. While fewer than `data_len` bytes
/// are there, the most that can be said is that nothing is wrong yet.
#[verifier::opaque]
pub open spec fn meta_data_spec(s: Seq<u8>, data_len: nat) -> Outcome<Map<Seq<u8>, Seq<u8>>> {
    if s.len() >= data_len {
        properties_spec(s.take(data_len as int), Map::empty(), true)
    } else {
        match properties_spec(s, Map::empty(), false) {
            Outcome::Malformed { offset } => Outcome::Malformed { offset },
            _ => Outcome::Incomplete,
        }
    }
}

/// Parses the properties that fill the first `data_len` bytes of `input`,
/// which starts `base` bytes into the frame body.
pub(crate) fn meta_data<'a>(input: &'a [u8], data_len: usize, base: usize) -> (r: Result<
    (&'a [u8], MetaData<Borrowed<'a>, Borrowed<'a>>),
    ParseError,
>)
    requires
        base + input@.len() <= usize::MAX,
    ensures
        match r {
            Ok((rest, md)) => {
                &&& parsed_as(meta_data_spec(input@, data_len as nat), md@, input@, rest@)
                &&& rest@ == input@.skip(data_len as int)
                &&& md.wf()
                &&& md.cut_at(input@, base as nat)
            },
            Err(e) => e.reports(meta_data_spec(input@, data_len as nat)) && e.within(input@.len()),
        },
{
    proof {
        reveal(meta_data_spec);
    }
    let (rest, window, closed) = match take(input, data_len) {
        Ok((rest, window)) => (rest, window, true),
        Err(_) => (input, input, false),
    };
    let mut properties: MetaData<Borrowed<'a>, Borrowed<'a>> = MetaData::new();
    let mut current = window;
    let mut done: usize = 0;
    proof {
        assert(window@.skip(0) =~= window@);
        assert(properties.pairs() =~= Seq::empty());
    }

    while current.len() > 0
        invariant
            done <= window@.len(),
            base + window@.len() <= usize::MAX,
            closed ==> data_len <= input@.len() && window@ == input@.take(data_len as int),
            !closed ==> data_len > input@.len() && window@ == input@,
            current@ == window@.skip(done as int),
            properties.wf(),
            properties.cut_at(window@, base as nat),
            properties_spec(window@, Map::empty(), closed) == properties_spec(
                current@,
                properties@,
                closed,
            ).after(done as nat),
        decreases current@.len(),
    {
        proof {
            reveal(meta_data_spec);
        }
        match property(current, base + done) {
            Ok((next, (name, value))) => {
                let ghost before = properties;
                properties.insert(name, value);
                proof {
                    name.lemma_cut_wider(current@, window@, base as nat, done as nat);
                    value.0.lemma_cut_wider(current@, window@, base as nat, done as nat);
                    before.lemma_insert_cut(&properties, name, value, window@, base as nat);
                    let used = current@.len() - next@.len();
                    assert(next@ == window@.skip(done + used));
                }
                done = window.len() - next.len();
                current = next;
            },
            Err(ParseError::Incomplete) => {
                if closed {
                    return Err(ParseError::Malformed { offset: done });
                } else {
                    return Err(ParseError::Incomplete);
                }
            },
            Err(ParseError::Malformed { offset }) => {
                return Err(ParseError::Malformed { offset: done + offset });
            },
        }
    }
    if closed {
        proof {
            properties.lemma_cut_wider(window@, input@, base as nat, 0);
        }
        Ok((rest, properties))
    } else {
        Err(ParseError::Incomplete)
    }
}

/// A property that has been parsed stays what it is when bytes are appended,
/// and so does one that has been refused.
pub proof fn lemma_property_stable(w: Seq<u8>, more: Seq<u8>)
    requires
        !(property_spec(w) is Incomplete),
    ensures
        property_spec(w + more) == property_spec(w),
{
    reveal(property_spec);
    let longer = w + more;
    let n = w[0] as int;
    assert(longer[0] == w[0]);
    if n != 0 {
        if bad_name_char_within(w.skip(1), n as nat) {
            let i = choose|i: int| 0 <= i < w.skip(1).len() && i < n && !name_char(w.skip(1)[i]);
            assert(longer.skip(1)[i] == w.skip(1)[i]);
        } else {
            assert(w.len() >= 5 + n);
            assert(!bad_name_char_within(longer.skip(1), n as nat)) by {
                assert forall|i: int| 0 <= i < longer.skip(1).len() && i < n implies name_char(
                    longer.skip(1)[i],
                ) by {
                    assert(longer.skip(1)[i] == w.skip(1)[i]);
                }
            }
            let size = w.skip(1 + n);
            let longer_size = longer.skip(1 + n);
            assert forall|i: int| 0 <= i < 4 implies longer_size[i] == size[i] by {}
            let value_len = be32(w.skip(1 + n)) as int;
            assert(longer.subrange(1, 1 + n) =~= w.subrange(1, 1 + n));
            assert(longer.subrange(5 + n, 5 + n + value_len) =~= w.subrange(
                5 + n,
                5 + n + value_len,
            ));
        }
    }
}

/// A property that is cut short is incomplete: no beginning of a property is
/// itself a property, or wrong.
pub proof fn lemma_property_cut(w: Seq<u8>, k: int)
    requires
        property_spec(w) matches Outcome::Parsed { consumed, .. } && 0 <= k < consumed,
    ensures
        property_spec(w.take(k)) is Incomplete,
{
    reveal(property_spec);
    let shorter = w.take(k);
    let n = w[0] as int;
    if k >= 1 {
        assert(shorter[0] == w[0]);
        assert(!bad_name_char_within(shorter.skip(1), n as nat)) by {
            assert forall|i: int| 0 <= i < shorter.skip(1).len() && i < n implies name_char(
                shorter.skip(1)[i],
            ) by {
                assert(shorter.skip(1)[i] == w.skip(1)[i]);
            }
        }
        if k >= 5 + n {
            let size = w.skip(1 + n);
            let shorter_size = shorter.skip(1 + n);
            assert forall|i: int| 0 <= i < 4 implies shorter_size[i] == size[i] by {}
        }
    }
}

/// A run of properties that fills a window takes all of the window.
pub proof fn lemma_properties_fill(w: Seq<u8>, acc: Map<Seq<u8>, Seq<u8>>, closed: bool)
    ensures
        properties_spec(w, acc, closed) matches Outcome::Parsed { consumed, .. } ==> consumed
            == w.len(),
        properties_spec(w, acc, closed) matches Outcome::Malformed { offset } ==> offset <= w.len(),
    decreases w.len(),
{
    reveal(property_spec);
    if w.len() > 0 {
        if let Outcome::Parsed { value: (name, value), consumed } = property_spec(w) {
            if 0 < consumed <= w.len() {
                lemma_properties_fill(w.skip(consumed as int), acc.insert(name, value), closed);
            }
        }
    }
}

/// Once properties fill the first `k` bytes of a window exactly, the rest of
/// the window is read as a run of its own, written into what those gave.
pub proof fn lemma_properties_resume(
    w: Seq<u8>,
    k: int,
    acc: Map<Seq<u8>, Seq<u8>>,
    closed: bool,
)
    requires
        0 <= k <= w.len(),
        properties_spec(w.take(k), acc, true) is Parsed,
    ensures
        properties_spec(w, acc, closed) == properties_spec(
            w.skip(k),
            properties_spec(w.take(k), acc, true)->value,
            closed,
        ).after(k as nat),
    decreases k,
{
    let front = w.take(k);
    if k == 0 {
        assert(w.skip(0) =~= w);
    } else {
        match property_spec(front) {
            Outcome::Parsed { value: (name, value), consumed } => {
                let n = consumed as int;
                assert(front + w.skip(k) =~= w);
                lemma_property_stable(front, w.skip(k));
                assert(front.skip(n) =~= w.skip(n).take(k - n));
                lemma_properties_resume(w.skip(n), k - n, acc.insert(name, value), closed);
                assert(w.skip(n).skip(k - n) =~= w.skip(k));
            },
            _ => {},
        }
    }
}

/// A run of properties that has been refused stays refused, at the same
/// place, whatever is appended to the window and wherever the window then
/// ends.
pub proof fn lemma_properties_refused_stable(
    w: Seq<u8>,
    more: Seq<u8>,
    acc: Map<Seq<u8>, Seq<u8>>,
    closed: bool,
)
    requires
        properties_spec(w, acc, false) is Malformed,
    ensures
        properties_spec(w + more, acc, closed) == properties_spec(w, acc, false),
    decreases w.len(),
{
    match property_spec(w) {
        Outcome::Parsed { value: (name, value), consumed } => {
            lemma_property_stable(w, more);
            assert((w + more).skip(consumed as int) =~= w.skip(consumed as int) + more);
            lemma_properties_refused_stable(
                w.skip(consumed as int),
                more,
                acc.insert(name, value),
                closed,
            );
        },
        Outcome::Malformed { .. } => {
            lemma_property_stable(w, more);
        },
        Outcome::Incomplete => {},
    }
}

/// Once metadata has been parsed or refused, bytes that follow change
/// nothing.
pub proof fn lemma_meta_data_stable(s: Seq<u8>, more: Seq<u8>, data_len: nat)
    requires
        !(meta_data_spec(s, data_len) is Incomplete),
    ensures
        meta_data_spec(s + more, data_len) == meta_data_spec(s, data_len),
{
    reveal(meta_data_spec);
    let longer = s + more;
    if s.len() >= data_len {
        assert(longer.take(data_len as int) =~= s.take(data_len as int));
    } else if longer.len() >= data_len {
        let fill = more.take(data_len - s.len());
        assert(longer.take(data_len as int) =~= s + fill);
        lemma_properties_refused_stable(s, fill, Map::empty(), true);
    } else {
        lemma_properties_refused_stable(s, more, Map::empty(), false);
    }
}

/// Metadata takes exactly the declared length, or it is not parsed: never
/// fewer bytes, never more, and never before all of them are there.
pub proof fn lemma_meta_data_exact(s: Seq<u8>, data_len: nat)
    ensures
        meta_data_spec(s, data_len) matches Outcome::Parsed { consumed, .. } ==> consumed
            == data_len && data_len <= s.len(),
{
    reveal(meta_data_spec);
    if s.len() >= data_len {
        lemma_properties_fill(s.take(data_len as int), Map::empty(), true);
    }
}

/// A property that starts within the declared length and ends past it is
/// refused where it starts, whatever follows it: where the properties before
/// it fill the first `start` bytes, and the declared length is all there.
pub proof fn lemma_overshoot_rejected(s: Seq<u8>, data_len: nat, start: nat)
    requires
        start < data_len <= s.len(),
        properties_spec(s.take(start as int), Map::empty(), true) is Parsed,
        property_spec(s.skip(start as int)) matches Outcome::Parsed { consumed, .. } && start
            + consumed > data_len,
    ensures
        meta_data_spec(s, data_len) == (Outcome::<Map<Seq<u8>, Seq<u8>>>::Malformed {
            offset: start,
        }),
{
    reveal(meta_data_spec);
    let window = s.take(data_len as int);
    assert(window.take(start as int) =~= s.take(start as int));
    lemma_properties_resume(window, start as int, Map::empty(), true);
    assert(window.skip(start as int) =~= s.skip(start as int).take(data_len - start));
    lemma_property_cut(s.skip(start as int), data_len - start);
}

} // verus!
