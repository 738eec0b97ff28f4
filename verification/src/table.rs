//! Host-supplied data channels.
//!
//! A data table maps a channel id — the canonical value of a field element —
//! to an ordered sequence of field elements. The host seeds it before
//! execution begins and the oracle dispatcher only reads it. The channel with
//! key zero is the canonical prover-input channel. By convention a test
//! fixture is admitted as one channel holding the fixture's raw bytes, each
//! promoted to a field element, behind a leading length-count element.

use crate::field::{FieldElement, FIELD_MODULUS};
use vstd::prelude::*;

verus! {

/// The channels, keyed by the canonical value of their channel id.
pub struct DataTable {
    entries: Vec<(u64, Vec<FieldElement>)>,
}

/// The contents of the channel keyed `key`, if any: the first entry wins,
/// and the table keeps its keys unique.
pub open spec fn spec_channel(t: Seq<(int, Seq<int>)>, key: int) -> Option<Seq<int>>
    decreases t.len(),
{
    if t.len() == 0 {
        None
    } else if t[0].0 == key {
        Some(t[0].1)
    } else {
        spec_channel(t.drop_first(), key)
    }
}

impl View for DataTable {
    type V = Seq<(int, Seq<int>)>;

    closed spec fn view(&self) -> Seq<(int, Seq<int>)> {
        self.entries@.map_values(
            |e: (u64, Vec<FieldElement>)| (e.0 as int, e.1@.map_values(|fe: FieldElement| fe@)),
        )
    }
}

impl DataTable {
    #[verifier::type_invariant]
    spec fn inv(self) -> bool {
        forall|i: int, j: int|
            0 <= i < j < self.entries@.len() ==> (#[trigger] self.entries@[i]).0 != (
            #[trigger] self.entries@[j]).0
    }

    /// An empty table: no channel has an entry.
    pub fn new() -> (r: Self)
        ensures
            r@ =~= Seq::<(int, Seq<int>)>::empty(),
    {
        DataTable { entries: Vec::new() }
    }

    pub open spec fn spec_len(&self) -> nat {
        self@.len()
    }

    /// Binds `channel` to `data`, replacing the channel's previous contents
    /// if it had any and leaving every other channel unchanged.
    pub fn set_channel(&mut self, channel: FieldElement, data: Vec<FieldElement>)
        ensures
            spec_channel(final(self)@, channel@) == Some(
                data@.map_values(|fe: FieldElement| fe@),
            ),
            forall|k: int|
                k != channel@ ==> #[trigger] spec_channel(final(self)@, k) == spec_channel(
                    old(self)@,
                    k,
                ),
    {
        proof {
            use_type_invariant(&*self);
        }
        let key = channel.val();
        let ghost data_v = data@.map_values(|fe: FieldElement| fe@);
        let ghost t0 = self@;
        let mut entries: Vec<(u64, Vec<FieldElement>)> = Vec::new();
        std::mem::swap(&mut entries, &mut self.entries);
        let ghost e0 = entries@;
        let mut i: usize = 0;
        let n = entries.len();
        let mut found = false;
        while i < n && !found
            invariant
                entries@ == e0,
                n == e0.len(),
                0 <= i <= n,
                forall|j: int, k: int|
                    0 <= j < k < e0.len() ==> (#[trigger] e0[j]).0 != (#[trigger] e0[k]).0,
                !found ==> forall|j: int| 0 <= j < i ==> (#[trigger] e0[j]).0 != key,
                found ==> i < n && e0[i as int].0 == key,
            decreases n - i + if found { 0int } else { 1int },
        {
            if entries[i].0 == key {
                found = true;
            } else {
                i = i + 1;
            }
        }
        if found {
            entries.set(i, (key, data));
            self.entries = entries;
            proof {
                assert(t0[i as int].0 == key as int);
                assert(self@ =~= t0.update(i as int, (key as int, data_v)));
                assert(forall|j: int| 0 <= j < i ==> (#[trigger] t0[j]).0 != key);
                lemma_channel_update(self@, t0, i as int, key as int, data_v);
            }
        } else {
            entries.push((key, data));
            self.entries = entries;
            proof {
                assert(forall|j: int| 0 <= j < t0.len() ==> (#[trigger] t0[j]).0 != key);
                lemma_channel_append(t0, key as int, data_v);
                assert(self@ =~= t0.push((key as int, data_v)));
            }
        }
    }

    /// How many elements the channel keyed `key` holds, `None` when the
    /// table has no such channel.
    pub fn channel_len(&self, key: u64) -> (r: Option<u64>)
        ensures
            match r {
                Some(n) => spec_channel(self@, key as int) matches Some(c) && c.len() == n,
                None => spec_channel(self@, key as int) is None,
            },
    {
        proof {
            use_type_invariant(self);
        }
        let mut i: usize = 0;
        let n = self.entries.len();
        proof {
            assert(self@.skip(0) =~= self@);
        }
        while i < n
            invariant
                n == self.entries@.len(),
                0 <= i <= n,
                n == self@.len(),
                spec_channel(self@, key as int) == spec_channel(self@.skip(i as int), key as int),
            decreases n - i,
        {
            if self.entries[i].0 == key {
                proof {
                    assert(self@.skip(i as int)[0] == self@[i as int]);
                }
                return Some(self.entries[i].1.len() as u64);
            }
            proof {
                assert(self@.skip(i as int)[0] == self@[i as int]);
                assert(self@.skip(i as int).drop_first() =~= self@.skip(i as int + 1));
            }
            i = i + 1;
        }
        proof {
            assert(self@.skip(i as int) =~= Seq::<(int, Seq<int>)>::empty());
        }
        None
    }

    /// Element `idx` of the channel keyed `key`; `None` when the channel is
    /// missing or the index reaches past its end.
    pub fn channel_element(&self, key: u64, idx: u64) -> (r: Option<FieldElement>)
        ensures
            match r {
                Some(fe) => spec_channel(self@, key as int) matches Some(c) && idx < c.len()
                    && fe@ == c[idx as int],
                None => !(spec_channel(self@, key as int) matches Some(c) && idx < c.len()),
            },
    {
        proof {
            use_type_invariant(self);
        }
        let mut i: usize = 0;
        let n = self.entries.len();
        proof {
            assert(self@.skip(0) =~= self@);
        }
        while i < n
            invariant
                n == self.entries@.len(),
                0 <= i <= n,
                n == self@.len(),
                spec_channel(self@, key as int) == spec_channel(self@.skip(i as int), key as int),
            decreases n - i,
        {
            if self.entries[i].0 == key {
                proof {
                    assert(self@.skip(i as int)[0] == self@[i as int]);
                }
                let data = &self.entries[i].1;
                if idx < data.len() as u64 {
                    return Some(data[idx as usize]);
                } else {
                    return None;
                }
            }
            proof {
                assert(self@.skip(i as int)[0] == self@[i as int]);
                assert(self@.skip(i as int).drop_first() =~= self@.skip(i as int + 1));
            }
            i = i + 1;
        }
        proof {
            assert(self@.skip(i as int) =~= Seq::<(int, Seq<int>)>::empty());
        }
        None
    }
}

proof fn lemma_channel_update(
    t: Seq<(int, Seq<int>)>,
    t0: Seq<(int, Seq<int>)>,
    i: int,
    key: int,
    data: Seq<int>,
)
    requires
        0 <= i < t0.len(),
        t == t0.update(i, (key, data)),
        t0[i].0 == key,
        forall|j: int| 0 <= j < i ==> (#[trigger] t0[j]).0 != key,
    ensures
        spec_channel(t, key) == Some(data),
        forall|k: int| k != key ==> #[trigger] spec_channel(t, k) == spec_channel(t0, k),
    decreases i,
{
    if i == 0 {
        assert(t[0] == (key, data));
        assert forall|k: int| k != key implies #[trigger] spec_channel(t, k) == spec_channel(
            t0,
            k,
        ) by {
            assert(spec_channel(t, k) == spec_channel(t.drop_first(), k));
            assert(spec_channel(t0, k) == spec_channel(t0.drop_first(), k));
            assert(t.drop_first() =~= t0.drop_first());
        }
    } else {
        assert(t.drop_first() =~= t0.drop_first().update(i - 1, (key, data)));
        lemma_channel_update(t.drop_first(), t0.drop_first(), i - 1, key, data);
        assert(t[0] == t0[0]);
        assert(t[0].0 != key);
        assert forall|k: int| k != key implies #[trigger] spec_channel(t, k) == spec_channel(
            t0,
            k,
        ) by {
            if t0[0].0 == k {
                assert(spec_channel(t, k) == Some(t[0].1));
                assert(spec_channel(t0, k) == Some(t0[0].1));
            } else {
                assert(spec_channel(t, k) == spec_channel(t.drop_first(), k));
                assert(spec_channel(t0, k) == spec_channel(t0.drop_first(), k));
            }
        }
    }
}

proof fn lemma_channel_append(t0: Seq<(int, Seq<int>)>, key: int, data: Seq<int>)
    requires
        forall|j: int| 0 <= j < t0.len() ==> (#[trigger] t0[j]).0 != key,
    ensures
        spec_channel(t0.push((key, data)), key) == Some(data),
        forall|k: int|
            k != key ==> #[trigger] spec_channel(t0.push((key, data)), k) == spec_channel(t0, k),
    decreases t0.len(),
{
    let t = t0.push((key, data));
    if t0.len() == 0 {
        assert(t[0] == (key, data));
        assert(t.drop_first() =~= Seq::<(int, Seq<int>)>::empty());
        assert forall|k: int| k != key implies #[trigger] spec_channel(t, k) == spec_channel(
            t0,
            k,
        ) by {
            assert(spec_channel(t, k) == spec_channel(t.drop_first(), k));
            assert(spec_channel(t0, k) is None);
        }
    } else {
        assert(t.drop_first() =~= t0.drop_first().push((key, data)));
        lemma_channel_append(t0.drop_first(), key, data);
        assert(t[0] == t0[0]);
        assert(t[0].0 != key);
        assert forall|k: int| k != key implies #[trigger] spec_channel(t, k) == spec_channel(
            t0,
            k,
        ) by {
            if t0[0].0 == k {
                assert(spec_channel(t, k) == Some(t[0].1));
                assert(spec_channel(t0, k) == Some(t0[0].1));
            } else {
                assert(spec_channel(t, k) == spec_channel(t.drop_first(), k));
                assert(spec_channel(t0, k) == spec_channel(t0.drop_first(), k));
            }
        }
    }
}

/// Promotes a test fixture's raw bytes to one channel's contents: a leading
/// length-count element, then one element per byte.
pub fn fixture_channel(bytes: &Vec<u8>) -> (r: Vec<FieldElement>)
    requires
        bytes@.len() < FIELD_MODULUS,
    ensures
        r@.len() == bytes@.len() + 1,
        r@[0]@ == bytes@.len(),
        forall|i: int| 0 <= i < bytes@.len() ==> (#[trigger] r@[i + 1])@ == bytes@[i],
{
    let mut r: Vec<FieldElement> = Vec::new();
    proof {
        vstd::arithmetic::div_mod::lemma_small_mod(bytes@.len() as nat, FIELD_MODULUS as nat);
    }
    r.push(FieldElement::from_u64(bytes.len() as u64));
    let mut i: usize = 0;
    while i < bytes.len()
        invariant
            0 <= i <= bytes@.len(),
            r@.len() == i + 1,
            r@[0]@ == bytes@.len(),
            forall|j: int| 0 <= j < i ==> (#[trigger] r@[j + 1])@ == bytes@[j],
        decreases bytes@.len() - i,
    {
        let b = bytes[i];
        proof {
            vstd::arithmetic::div_mod::lemma_small_mod(b as nat, FIELD_MODULUS as nat);
        }
        r.push(FieldElement::from_u64(b as u64));
        i = i + 1;
    }
    r
}

} // verus!
