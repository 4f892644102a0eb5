use vstd::prelude::*;

verus! {

/// Encodes how to recover an entity id from a list of events.
///
/// The encoded value keeps the event index in bits `[31:1]` and, in the lowest bit,
/// whether the entity is the subject (0) or the object (1) of that event.
#[derive(Clone, Copy, PartialEq, Eq, Structural, Debug)]
pub struct EntityEncode {
    pub encode: u32,
}

impl EntityEncode {
    /// The index of the event this encoding points at.
    pub open spec fn index_of(self) -> nat {
        (self.encode >> 1u32) as nat
    }

    /// Whether the encoded entity is the object of the event.
    pub open spec fn names_object(self) -> bool {
        self.encode & 1u32 == 1u32
    }

    /// The encoding of the subject of the `idx`-th event.
    pub open spec fn subject_code(idx: nat) -> EntityEncode {
        EntityEncode { encode: ((idx % 0x8000_0000) * 2) as u32 }
    }

    /// The encoding of the object of the `idx`-th event.
    pub open spec fn object_code(idx: nat) -> EntityEncode {
        EntityEncode { encode: ((idx % 0x8000_0000) * 2 + 1) as u32 }
    }

    /// Encodes the subject of the `event_idx`-th event. The index is kept modulo 2^31.
    pub fn subject_of(event_idx: usize) -> (res: EntityEncode)
        ensures
            res == EntityEncode::subject_code(event_idx as nat),
            res.index_of() == event_idx as nat % 0x8000_0000,
            !res.names_object(),
    {
        let idx = event_idx as u32;
        let encode = idx << 1u32;
        proof {
            lemma_shift_pair(idx);
            assert(idx == event_idx as nat % 0x1_0000_0000) by (bit_vector)
                requires idx == event_idx as u32;
            assert(encode == ((idx % 0x8000_0000) * 2) as u32) by (bit_vector)
                requires encode == idx << 1u32;
            vstd::arithmetic::div_mod::lemma_mod_mod(event_idx as int, 0x8000_0000, 2);
        }
        EntityEncode { encode }
    }

    /// Encodes the object of the `event_idx`-th event. The index is kept modulo 2^31.
    pub fn object_of(event_idx: usize) -> (res: EntityEncode)
        ensures
            res == EntityEncode::object_code(event_idx as nat),
            res.index_of() == event_idx as nat % 0x8000_0000,
            res.names_object(),
    {
        let idx = event_idx as u32;
        let encode = (idx << 1u32) | 1u32;
        proof {
            lemma_shift_pair(idx);
            assert(idx == event_idx as nat % 0x1_0000_0000) by (bit_vector)
                requires idx == event_idx as u32;
            assert(encode == ((idx % 0x8000_0000) * 2 + 1) as u32) by (bit_vector)
                requires encode == (idx << 1u32) | 1u32;
            vstd::arithmetic::div_mod::lemma_mod_mod(event_idx as int, 0x8000_0000, 2);
        }
        EntityEncode { encode }
    }

    /// The index of the event the entity belongs to.
    pub fn get_index(&self) -> (res: usize)
        ensures
            res as nat == self.index_of(),
    {
        (self.encode >> 1u32) as usize
    }

    /// Returns `true` when the entity is the subject of the event.
    pub fn is_subject(&self) -> (res: bool)
        ensures
            res == !self.names_object(),
    {
        proof {
            let e = self.encode;
            assert(e & 1u32 == 0u32 || e & 1u32 == 1u32) by (bit_vector);
        }
        self.encode & 1u32 == 0u32
    }

    /// Returns `true` when the entity is the object of the event.
    pub fn is_object(&self) -> (res: bool)
        ensures
            res == self.names_object(),
    {
        self.encode & 1u32 == 1u32
    }

    /// Picks the encoded endpoint out of a `(subject, object)` pair.
    pub open spec fn pick(self, endpoints: (u64, u64)) -> u64 {
        if self.names_object() { endpoints.1 } else { endpoints.0 }
    }

    /// Reads the entity from `events`, which must be long enough.
    pub fn get_entity_unchecked<E, F>(&self, events: &[E], endpoints_extractor: F) -> (res: u64)
        where
            F: Fn(&E) -> (u64, u64),
        requires
            self.index_of() < events@.len(),
            call_requires(endpoints_extractor, (&events@[self.index_of() as int],)),
        ensures
            exists|endpoints: (u64, u64)|
                call_ensures(endpoints_extractor, (&events@[self.index_of() as int],), endpoints)
                    && res == self.pick(endpoints),
    {
        let index = self.get_index();
        let event = &events[index];
        let endpoints = endpoints_extractor(event);
        assert(call_ensures(endpoints_extractor, (&events@[self.index_of() as int],), endpoints));
        let res = if self.is_object() {
            endpoints.1
        } else {
            endpoints.0
        };
        assert(res == self.pick(endpoints));
        res
    }

    /// Reads the entity from `events`, or `None` when the index is out of range.
    pub fn get_entity<E, F>(&self, events: &[E], endpoints_extractor: F) -> (res: Option<u64>)
        where
            F: Fn(&E) -> (u64, u64),
        requires
            self.index_of() < events@.len() ==> call_requires(
                endpoints_extractor,
                (&events@[self.index_of() as int],),
            ),
        ensures
            res is None <==> self.index_of() >= events@.len(),
            res matches Some(v) ==> exists|endpoints: (u64, u64)|
                call_ensures(endpoints_extractor, (&events@[self.index_of() as int],), endpoints)
                    && v == self.pick(endpoints),
    {
        let index = self.get_index();
        if index < events.len() {
            Some(self.get_entity_unchecked(events, endpoints_extractor))
        } else {
            None
        }
    }
}

/// For every event index below 2^31, the subject encoding of the index points at that event
/// and reads its subject, and the object encoding points at it and reads its object; so
/// `get_entity_unchecked` on them gives the subject or the object of that event.
pub proof fn lemma_codes_read_endpoints(idx: nat, endpoints: (u64, u64))
    requires
        idx < 0x8000_0000,
    ensures
        EntityEncode::subject_code(idx).index_of() == idx,
        EntityEncode::subject_code(idx).pick(endpoints) == endpoints.0,
        EntityEncode::object_code(idx).index_of() == idx,
        EntityEncode::object_code(idx).pick(endpoints) == endpoints.1,
{
    let i = idx as u32;
    assert(i as nat == idx);
    let s = EntityEncode::subject_code(idx).encode;
    let o = EntityEncode::object_code(idx).encode;
    assert(s == (i * 2) as u32 && o == (i * 2 + 1) as u32);
    assert((s >> 1u32) == i && s & 1u32 == 0u32) by (bit_vector)
        requires
            i < 0x8000_0000,
            s == (i * 2) as u32;
    assert((o >> 1u32) == i && o & 1u32 == 1u32) by (bit_vector)
        requires
            i < 0x8000_0000,
            o == (i * 2 + 1) as u32;
}

proof fn lemma_shift_pair(idx: u32)
    ensures
        ((idx << 1u32) >> 1u32) as nat == idx as nat % 0x8000_0000,
        (idx << 1u32) & 1u32 == 0u32,
        (((idx << 1u32) | 1u32) >> 1u32) as nat == idx as nat % 0x8000_0000,
        ((idx << 1u32) | 1u32) & 1u32 == 1u32,
{
    assert(((idx << 1u32) >> 1u32) == idx % 0x8000_0000) by (bit_vector);
    assert((idx << 1u32) & 1u32 == 0u32) by (bit_vector);
    assert((((idx << 1u32) | 1u32) >> 1u32) == idx % 0x8000_0000) by (bit_vector);
    assert(((idx << 1u32) | 1u32) & 1u32 == 1u32) by (bit_vector);
}

} // verus!
