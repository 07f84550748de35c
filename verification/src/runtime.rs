//! The helper functions that compiled code calls.
//!
//! Tables, strings and globals have no representation yet: each helper answers
//! with zero. Addresses are passed as integers.
use vstd::prelude::*;

verus! {

/// The length of a value.
pub fn lua_len(val: i64) -> (r: i64)
    ensures
        r == 0,
{
    0
}

/// A new table.
pub fn lua_newtable() -> (r: i64)
    ensures
        r == 0,
{
    0
}

/// Writes an entry of a table.
pub fn lua_settable(_table: i64, _index: i64, _value: i64) -> (r: i64)
    ensures
        r == 0,
{
    0
}

/// The concatenation of two values.
pub fn lua_concat(_a: i64, _b: i64) -> (r: i64)
    ensures
        r == 0,
{
    0
}

/// The key after a given one; zero at the end of the table.
pub fn lua_next(_table: i64, _key: i64) -> (r: i64)
    ensures
        r == 0,
{
    0
}

/// The global variable whose name is at an address.
pub fn lua_getglobal(_name_ptr: usize) -> (r: i64)
    ensures
        r == 0,
{
    0
}

/// Writes the global variable whose name is at an address.
pub fn lua_setglobal(_name_ptr: usize, _value: i64) -> (r: i64)
    ensures
        r == 0,
{
    0
}

/// The address of a value as text; the null address.
pub fn lua_tostring(_val: i64) -> (r: usize)
    ensures
        r == 0,
{
    0
}

/// Reads an entry of a table.
pub fn lua_gettable(_table: i64, _index: i64) -> (r: i64)
    ensures
        r == 0,
{
    0
}

} // verus!
