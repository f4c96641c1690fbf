//! Record types that know how to write themselves, and the counter record
//! whose values are deltas that merge by summing.
use vstd::prelude::*;
use crate::sst_writer::push_all;
use crate::varint::{
    write_varint_signed, read_varint_signed, varint_i64, varint_i64_width, varint_i64_value,
};

verus! {

/// A point in time, in milliseconds since the Unix epoch.
#[derive(Ord, PartialOrd, Eq, PartialEq, Copy, Clone, Default, Debug)]
pub struct Timestamp {
    pub ms: u64,
}

/// Relies on `std::time::SystemTime::now` and `duration_since(UNIX_EPOCH)`:
/// the milliseconds since the Unix epoch, or `None` for a clock set before it.
#[verifier::external_body]
fn unix_millis() -> Option<u64> {
    match std::time::SystemTime::now().duration_since(std::time::SystemTime::UNIX_EPOCH) {
        Ok(d) => Some(d.as_millis() as u64),
        Err(_) => None,
    }
}

impl Timestamp {
    /// The current time.
    pub fn now() -> (r: Timestamp) {
        // A clock set before the epoch counts as the epoch itself.
        match unix_millis() {
            Some(ms) => Timestamp { ms },
            None => Timestamp { ms: 0 },
        }
    }
}

/// A record that writes its key and its value into a buffer.
pub trait KVWritable {
    /// The key's bytes.
    spec fn key_bytes(&self) -> Seq<u8>;

    /// The value's bytes.
    spec fn value_bytes(&self) -> Seq<u8>;

    /// Appends the key.
    fn write_key(&self, buffer: &mut Vec<u8>)
        ensures
            final(buffer)@ == old(buffer)@ + self.key_bytes(),
    ;

    /// Appends the value.
    fn write_value(&self, buffer: &mut Vec<u8>)
        ensures
            final(buffer)@ == old(buffer)@ + self.value_bytes(),
    ;
}

/// A key and a value given as bytes.
impl<'a> KVWritable for (&'a [u8], &'a [u8]) {
    open spec fn key_bytes(&self) -> Seq<u8> {
        self.0@
    }

    open spec fn value_bytes(&self) -> Seq<u8> {
        self.1@
    }

    fn write_key(&self, buffer: &mut Vec<u8>) {
        push_all(buffer, self.0);
    }

    fn write_value(&self, buffer: &mut Vec<u8>) {
        push_all(buffer, self.1);
    }
}

/// A delta to a counter: its value is the delta in the signed encoding.
#[derive(Debug, Clone)]
pub struct CounterRecord<'a> {
    /// The counter's key.
    pub key: &'a [u8],
    /// When the delta was made.
    pub timestamp: Timestamp,
    /// How much the counter changes.
    pub delta: i64,
}

/// A value holds a whole signed encoding.
pub open spec fn is_delta(b: Seq<u8>) -> bool {
    b.len() >= 1 && b.len() >= varint_i64_width(b[0])
}

/// The sum of the deltas encoded in `values`, wrapping on overflow.
pub open spec fn delta_sum(values: Seq<Seq<u8>>) -> i64
    decreases values.len(),
{
    if values.len() == 0 {
        0
    } else {
        delta_sum(values.drop_last()).wrapping_add(varint_i64_value(values.last()))
    }
}

impl<'a> CounterRecord<'a> {
    /// A delta to the counter `key`, stamped with the current time.
    pub fn new(key: &'a [u8], delta: i64) -> (r: Self)
        ensures
            r.key@ == key@,
            r.delta == delta,
    {
        CounterRecord { key, timestamp: Timestamp::now(), delta }
    }

    /// When the delta was made.
    pub fn timestamp(&self) -> (r: Timestamp)
        ensures
            r == self.timestamp,
    {
        self.timestamp
    }

    /// Sums the deltas of one counter. Writes the sum and returns `true`
    /// where it is not zero; returns `false`, writing nothing, where the
    /// counter comes to zero and is dropped.
    pub fn merge(values: &[&[u8]], merged: &mut Vec<u8>) -> (keep: bool)
        requires
            forall|i: int| 0 <= i < values@.len() ==> is_delta(#[trigger] values@[i]@),
        ensures
            keep == (delta_sum(values@.map_values(|s: &[u8]| s@)) != 0),
            keep ==> final(merged)@ == old(merged)@ + varint_i64(
                delta_sum(values@.map_values(|s: &[u8]| s@)),
            ),
            !keep ==> final(merged)@ == old(merged)@,
    {
        let ghost vs = values@.map_values(|s: &[u8]| s@);
        let mut freq: i64 = 0;
        let mut i: usize = 0;
        while i < values.len()
            invariant
                i <= values@.len(),
                vs == values@.map_values(|s: &[u8]| s@),
                forall|j: int| 0 <= j < values@.len() ==> is_delta(#[trigger] values@[j]@),
                freq == delta_sum(vs.take(i as int)),
            decreases values@.len() - i,
        {
            let mut tmp: i64 = 0;
            read_varint_signed(&mut tmp, values[i]);
            proof {
                assert(vs.take(i + 1).drop_last() =~= vs.take(i as int));
                assert(vs.take(i + 1).last() == values@[i as int]@);
            }
            freq = freq.wrapping_add(tmp);
            i = i + 1;
        }
        proof {
            assert(vs.take(values@.len() as int) =~= vs);
        }
        if freq == 0 {
            false
        } else {
            write_varint_signed(freq, merged);
            true
        }
    }
}

impl<'a> KVWritable for CounterRecord<'a> {
    open spec fn key_bytes(&self) -> Seq<u8> {
        self.key@
    }

    open spec fn value_bytes(&self) -> Seq<u8> {
        varint_i64(self.delta)
    }

    fn write_key(&self, buffer: &mut Vec<u8>) {
        push_all(buffer, self.key);
    }

    fn write_value(&self, buffer: &mut Vec<u8>) {
        write_varint_signed(self.delta, buffer);
    }
}

} // verus!
