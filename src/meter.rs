use vstd::prelude::*;

verus! {

/// A weight policy: how much of a cache's capacity one entry takes.
///
/// A meter is deterministic: its weight depends on the key and the value alone.
pub trait Meter<K, V> {
    spec fn measure_spec(&self, key: &K, value: &V) -> usize;

    fn measure(&self, key: &K, value: &V) -> (r: usize)
        ensures
            r == self.measure_spec(key, value),
    ;
}

/// Every entry weighs one: the cache is bounded by its number of entries.
pub struct Count;

impl<K, V> Meter<K, V> for Count {
    open spec fn measure_spec(&self, key: &K, value: &V) -> usize {
        1
    }

    fn measure(&self, key: &K, value: &V) -> (r: usize) {
        1
    }
}

/// An entry whose value is a file's length in bytes weighs that length.
pub struct FileSize;

impl<K> Meter<K, u64> for FileSize {
    open spec fn measure_spec(&self, key: &K, value: &u64) -> usize {
        *value as usize
    }

    fn measure(&self, key: &K, value: &u64) -> (r: usize) {
        *value as usize
    }
}

/// An entry whose value is a vector weighs its number of elements.
pub struct VecLen;

impl<K, T> Meter<K, Vec<T>> for VecLen {
    open spec fn measure_spec(&self, key: &K, value: &Vec<T>) -> usize {
        value@.len() as usize
    }

    fn measure(&self, key: &K, value: &Vec<T>) -> (r: usize) {
        value.len()
    }
}

} // verus!
