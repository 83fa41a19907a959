use vstd::prelude::*;

verus! {

use crate::commit_log::FromBytes;
use crate::commit_log::LogError;

/// Whether `[from, to)` is a readable range of a segment of `size` bytes:
/// the start lies inside the segment, the end within it, and the range is
/// not empty.
pub open spec fn range_ok(size: int, from: u64, to: u64) -> bool {
    &&& from < size
    &&& to <= size
    &&& from < to
}

/// Copies the byte range `[from, to)` out of a segment, rejecting ranges
/// that leave the segment or are empty.
pub fn read_slice_bytes(data: &Vec<u8>, from: u64, to: u64) -> (r: Result<Vec<u8>, LogError>)
    ensures
        r is Ok <==> range_ok(data@.len() as int, from, to),
        r matches Ok(v) ==> v@ == data@.subrange(from as int, to as int),
{
    let size = data.len() as u64;
    if from >= size || to > size || from >= to {
        return Err(LogError("the range leaves the segment or is empty".to_owned()));
    }
    let mut v: Vec<u8> = Vec::new();
    let mut i: usize = from as usize;
    while i < to as usize
        invariant
            from < to <= data@.len(),
            from <= i <= to,
            v@ == data@.subrange(from as int, i as int),
        decreases to as int - i,
    {
        v.push(data[i]);
        i = i + 1;
        proof {
            assert(v@ =~= data@.subrange(from as int, i as int));
        }
    }
    Ok(v)
}

/// Reads `number` bytes starting `from` bytes into the segment and decodes
/// them, as the paired read on a data file does.
pub fn read_slice<T: FromBytes>(data: &Vec<u8>, from: u64, number: u64) -> (r: Result<T, LogError>)
    requires
        from + number <= u64::MAX,
    ensures
        r is Ok <==> (range_ok(data@.len() as int, from, (from + number) as u64) && T::decoded(
            data@.subrange(from as int, from as int + number as int),
        ) is Some),
        r matches Ok(v) ==> T::decoded(data@.subrange(from as int, from as int + number as int))
            == Some(v@),
{
    match read_slice_bytes(data, from, from + number) {
        Ok(bytes) => match T::from_bytes(bytes.as_slice()) {
            Ok(v) => Ok(v),
            Err(e) => Err(LogError(e.0)),
        },
        Err(e) => Err(e),
    }
}

/// Reads the last `number` bytes of the segment and decodes them.
pub fn read_from_end<T: FromBytes>(data: &Vec<u8>, number: u64) -> (r: Result<T, LogError>)
    ensures
        r is Ok <==> (number > 0 && number <= data@.len() && T::decoded(
            data@.subrange(data@.len() - number, data@.len() as int),
        ) is Some),
        r matches Ok(v) ==> T::decoded(data@.subrange(data@.len() - number, data@.len() as int))
            == Some(v@),
{
    let size = data.len() as u64;
    if number > size {
        return Err(LogError("the segment holds fewer bytes than asked for".to_owned()));
    }
    match read_slice_bytes(data, size - number, size) {
        Ok(bytes) => match T::from_bytes(bytes.as_slice()) {
            Ok(v) => Ok(v),
            Err(e) => Err(LogError(e.0)),
        },
        Err(e) => Err(e),
    }
}

/// Reads `number` bytes starting `from` bytes before the segment's end and
/// decodes them.
pub fn read_slice_from_end<T: FromBytes>(data: &Vec<u8>, from: u64, number: u64) -> (r: Result<
    T,
    LogError,
>)
    ensures
        r is Ok <==> (from <= data@.len() && number > 0 && number <= from && T::decoded(
            data@.subrange(data@.len() - from, data@.len() - from + number),
        ) is Some),
        r matches Ok(v) ==> T::decoded(
            data@.subrange(data@.len() - from, data@.len() - from + number),
        ) == Some(v@),
{
    let size = data.len() as u64;
    if from > size {
        return Err(LogError("the offset from the end leaves the segment".to_owned()));
    }
    if number > from {
        return Err(LogError("the range runs past the segment's end".to_owned()));
    }
    let start = size - from;
    match read_slice_bytes(data, start, start + number) {
        Ok(bytes) => match T::from_bytes(bytes.as_slice()) {
            Ok(v) => Ok(v),
            Err(e) => Err(LogError(e.0)),
        },
        Err(e) => Err(e),
    }
}

/// Copies a whole, non-empty segment.
pub fn read_all_file_bytes(data: &Vec<u8>) -> (r: Result<Vec<u8>, LogError>)
    ensures
        r is Ok <==> data@.len() > 0,
        r matches Ok(v) ==> v@ == data@,
{
    let size = data.len() as u64;
    let r = read_slice_bytes(data, 0, size);
    proof {
        if data@.len() > 0 {
            assert(data@.subrange(0, data@.len() as int) =~= data@);
        }
    }
    r
}

} // verus!
