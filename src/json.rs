//! The JSON value of a node reply, and typed access to its fields.
use crate::error::DecodeError;
use crate::number::{fee_rate, fee_rate_of, integer_in, integer_in_range};
use vstd::prelude::*;

verus! {

/// A JSON value. Numbers keep their plain decimal text (`-12`, `0.0001`), so that no
/// precision is lost before a field is converted.
pub enum Json {
    Null,
    Bool(bool),
    Number(String),
    Str(String),
    Array(Vec<Json>),
    Object(Vec<(String, Json)>),
}

/// The first entry at or after index `i` whose key is `key`.
pub open spec fn lookup_from(entries: Seq<(String, Json)>, key: Seq<char>, i: int) -> Option<Json>
    decreases entries.len() - i,
{
    if i < 0 || i >= entries.len() {
        None
    } else if entries[i].0@ == key {
        Some(entries[i].1)
    } else {
        lookup_from(entries, key, i + 1)
    }
}

/// The value under `key` when `j` is an object holding that key.
pub open spec fn field_of(j: Json, key: Seq<char>) -> Option<Json> {
    match j {
        Json::Object(entries) => lookup_from(entries@, key, 0),
        _ => None,
    }
}

/// A mandatory field: the reply must be an object and hold the key.
pub open spec fn entry_of(j: Json, key: Seq<char>) -> Result<Json, DecodeError> {
    match j {
        Json::Object(_) => match field_of(j, key) {
            Some(v) => Ok(v),
            None => Err(DecodeError::MissingField),
        },
        _ => Err(DecodeError::TypeMismatch),
    }
}

/// A value that must be a string.
pub open spec fn text_of(v: Json) -> Result<Seq<char>, DecodeError> {
    match v {
        Json::Str(s) => Ok(s@),
        _ => Err(DecodeError::TypeMismatch),
    }
}

pub open spec fn text_field(j: Json, key: Seq<char>) -> Result<Seq<char>, DecodeError> {
    match entry_of(j, key) {
        Ok(v) => text_of(v),
        Err(e) => Err(e),
    }
}

pub open spec fn bool_field(j: Json, key: Seq<char>) -> Result<bool, DecodeError> {
    match entry_of(j, key) {
        Ok(Json::Bool(b)) => Ok(b),
        Ok(_) => Err(DecodeError::TypeMismatch),
        Err(e) => Err(e),
    }
}

/// A value that must be an integer within `[lo, hi]`.
pub open spec fn integer_of(v: Json, lo: int, hi: int) -> Result<int, DecodeError> {
    match v {
        Json::Number(t) => integer_in(t@, lo, hi),
        _ => Err(DecodeError::TypeMismatch),
    }
}

pub open spec fn integer_field(j: Json, key: Seq<char>, lo: int, hi: int) -> Result<
    int,
    DecodeError,
> {
    match entry_of(j, key) {
        Ok(v) => integer_of(v, lo, hi),
        Err(e) => Err(e),
    }
}

/// An optional fee-rate field: absent or null gives no rate.
pub open spec fn rate_field(j: Json, key: Seq<char>) -> Result<Option<int>, DecodeError> {
    match j {
        Json::Object(_) => match field_of(j, key) {
            None => Ok(None),
            Some(Json::Null) => Ok(None),
            Some(Json::Number(t)) => match fee_rate_of(t@) {
                Ok(r) => Ok(Some(r)),
                Err(e) => Err(e),
            },
            Some(_) => Err(DecodeError::TypeMismatch),
        },
        _ => Err(DecodeError::TypeMismatch),
    }
}

/// Whether `key` holds something other than null (an absent key counts as null).
pub open spec fn is_set(j: Json, key: Seq<char>) -> bool {
    match field_of(j, key) {
        Some(Json::Null) => false,
        Some(_) => true,
        None => false,
    }
}

impl Json {
    /// The value under `key`, when this is an object that holds it.
    pub fn field(&self, key: &str) -> (r: Option<&Json>)
        ensures
            match r {
                Some(v) => field_of(*self, key@) == Some(*v),
                None => field_of(*self, key@) is None,
            },
    {
        match self {
            Json::Object(entries) => {
                let k = key.to_owned();
                let mut i: usize = 0;
                while i < entries.len()
                    invariant
                        i <= entries.len(),
                        k@ == key@,
                        field_of(*self, key@) == lookup_from(entries@, key@, i as int),
                    decreases entries.len() - i,
                {
                    if entries[i].0 == k {
                        proof {
                            assert(entries@[i as int].0@ == key@);
                        }
                        return Some(&entries[i].1);
                    }
                    i += 1;
                }
                None
            },
            _ => None,
        }
    }

    /// The value under a mandatory `key`.
    pub fn entry(&self, key: &str) -> (r: Result<&Json, DecodeError>)
        ensures
            match r {
                Ok(v) => entry_of(*self, key@) == Ok::<Json, DecodeError>(*v),
                Err(e) => entry_of(*self, key@) == Err::<Json, DecodeError>(e),
            },
    {
        match self {
            Json::Object(_) => match self.field(key) {
                Some(v) => Ok(v),
                None => Err(DecodeError::MissingField),
            },
            _ => Err(DecodeError::TypeMismatch),
        }
    }

    /// This value as a string.
    pub fn text(&self) -> (r: Result<String, DecodeError>)
        ensures
            match r {
                Ok(s) => text_of(*self) == Ok::<Seq<char>, DecodeError>(s@),
                Err(e) => text_of(*self) == Err::<Seq<char>, DecodeError>(e),
            },
    {
        match self {
            Json::Str(s) => Ok(s.clone()),
            _ => Err(DecodeError::TypeMismatch),
        }
    }

    /// The string under a mandatory `key`.
    pub fn text_field(&self, key: &str) -> (r: Result<String, DecodeError>)
        ensures
            match r {
                Ok(s) => text_field(*self, key@) == Ok::<Seq<char>, DecodeError>(s@),
                Err(e) => text_field(*self, key@) == Err::<Seq<char>, DecodeError>(e),
            },
    {
        let v = self.entry(key)?;
        v.text()
    }

    /// The boolean under a mandatory `key`.
    pub fn bool_field(&self, key: &str) -> (r: Result<bool, DecodeError>)
        ensures
            match r {
                Ok(b) => bool_field(*self, key@) == Ok::<bool, DecodeError>(b),
                Err(e) => bool_field(*self, key@) == Err::<bool, DecodeError>(e),
            },
    {
        match self.entry(key)? {
            Json::Bool(b) => Ok(*b),
            _ => Err(DecodeError::TypeMismatch),
        }
    }

    /// This value as an integer within `[lo, hi]`.
    pub fn integer(&self, lo: i128, hi: i128) -> (r: Result<i128, DecodeError>)
        requires
            -0x1_0000_0000_0000_0000 <= lo,
            hi <= 0x1_0000_0000_0000_0000,
        ensures
            match r {
                Ok(v) => integer_of(*self, lo as int, hi as int) == Ok::<int, DecodeError>(v as int),
                Err(e) => integer_of(*self, lo as int, hi as int) == Err::<int, DecodeError>(e),
            },
    {
        match self {
            Json::Number(t) => integer_in_range(t.as_str(), lo, hi),
            _ => Err(DecodeError::TypeMismatch),
        }
    }

    /// The integer within `[lo, hi]` under a mandatory `key`.
    pub fn integer_field(&self, key: &str, lo: i128, hi: i128) -> (r: Result<i128, DecodeError>)
        requires
            -0x1_0000_0000_0000_0000 <= lo,
            hi <= 0x1_0000_0000_0000_0000,
        ensures
            match r {
                Ok(v) => integer_field(*self, key@, lo as int, hi as int) == Ok::<int, DecodeError>(
                    v as int,
                ),
                Err(e) => integer_field(*self, key@, lo as int, hi as int) == Err::<
                    int,
                    DecodeError,
                >(e),
            },
    {
        let v = self.entry(key)?;
        v.integer(lo, hi)
    }

    /// The fee rate under an optional `key`, in satoshis per kilo-weight-unit.
    pub fn rate_field(&self, key: &str) -> (r: Result<Option<u32>, DecodeError>)
        ensures
            match r {
                Ok(Some(v)) => rate_field(*self, key@) == Ok::<Option<int>, DecodeError>(
                    Some(v as int),
                ),
                Ok(None) => rate_field(*self, key@) == Ok::<Option<int>, DecodeError>(None),
                Err(e) => rate_field(*self, key@) == Err::<Option<int>, DecodeError>(e),
            },
    {
        match self {
            Json::Object(_) => match self.field(key) {
                None => Ok(None),
                Some(Json::Null) => Ok(None),
                Some(Json::Number(t)) => match fee_rate(t.as_str()) {
                    Ok(v) => Ok(Some(v)),
                    Err(e) => Err(e),
                },
                Some(_) => Err(DecodeError::TypeMismatch),
            },
            _ => Err(DecodeError::TypeMismatch),
        }
    }

    /// Whether `key` holds something other than null.
    pub fn is_set(&self, key: &str) -> (r: bool)
        ensures
            r == is_set(*self, key@),
    {
        match self.field(key) {
            Some(Json::Null) => false,
            Some(_) => true,
            None => false,
        }
    }
}

} // verus!
