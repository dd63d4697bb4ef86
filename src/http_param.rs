use vstd::prelude::*;

verus! {

/// Code of a successful reply.
pub const SUCCESS_CODE: u32 = 10000;

/// A reply: a status code and its data.
pub struct View<T> {
    pub code: u32,
    pub data: T,
}

impl<T> View<T> {
    /// A successful reply carrying `value`.
    pub fn success(value: T) -> (r: View<T>)
        ensures
            r.code == SUCCESS_CODE,
            r.data == value,
    {
        View { code: SUCCESS_CODE, data: value }
    }
}

/// A key and the value stored under it.
#[derive(Clone, Debug)]
pub struct DataItem {
    pub key: String,
    pub value: String,
}

} // verus!
