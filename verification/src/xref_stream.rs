//! Cross-reference streams: the object table in binary form, as the decoded
//! data of a stream whose dictionary gives the field widths.
use vstd::prelude::*;
use crate::bytes::ascii;
use crate::object::{dict_get, dict_lookup, dict_view, items_view, lemma_items_view, PdfObject, Value};
use crate::xref::{XrefEntry, XrefRecord};

verus! {

/// 256 to the power `w`.
pub open spec fn pow256(w: int) -> int
    decreases w,
{
    if w <= 0 {
        1
    } else {
        256 * pow256(w - 1)
    }
}

/// The number that the `w` bytes at `pos` write, the first byte counting most.
pub open spec fn be_value(data: Seq<u8>, pos: int, w: int) -> int
    decreases w,
{
    if w <= 0 {
        0
    } else {
        be_value(data, pos, w - 1) * 256 + data[pos + w - 1]
    }
}

/// The widths in bytes of the three fields of an entry, as `/W` gives them:
/// each at most 8, and not all zero.
pub open spec fn widths_of(d: Seq<(Seq<u8>, Value)>) -> Option<(int, int, int)> {
    match dict_get(d, ascii("W")) {
        Some(Value::Array(a)) => if a.len() == 3 {
            match (a[0], a[1], a[2]) {
                (Value::Integer(w0), Value::Integer(w1), Value::Integer(w2)) => if 0 <= w0 <= 8
                    && 0 <= w1 <= 8 && 0 <= w2 <= 8 && w0 + w1 + w2 >= 1 {
                    Some((w0, w1, w2))
                } else {
                    None
                },
                _ => None,
            }
        } else {
            None
        },
        _ => None,
    }
}

/// The entry that the three fields of a cross-reference stream write. Type 0
/// is a free object, type 1 an object at an offset, type 2 an object in an
/// object stream; any other type counts as free.
pub open spec fn stream_entry(t: int, f2: int, f3: int) -> Option<XrefEntry> {
    if t == 1 {
        if f2 <= usize::MAX && f3 <= u16::MAX {
            Some(XrefEntry::InUse { offset: f2 as usize, generation: f3 as u16 })
        } else {
            None
        }
    } else if t == 2 {
        if f2 <= u32::MAX && f3 <= u32::MAX {
            Some(XrefEntry::Compressed { stream: f2 as u32, index: f3 as u32 })
        } else {
            None
        }
    } else {
        Some(XrefEntry::Free)
    }
}

/// The entry that the fields at `pos` write. A type field of width zero
/// stands for type 1.
pub open spec fn entry_at(data: Seq<u8>, pos: int, w: (int, int, int)) -> Option<XrefEntry> {
    stream_entry(
        if w.0 == 0 {
            1
        } else {
            be_value(data, pos, w.0)
        },
        be_value(data, pos + w.0, w.1),
        be_value(data, pos + w.0 + w.1, w.2),
    )
}

/// The records of `remaining` entries from `pos`, for the object numbers from
/// `number` on, after `acc`; with the position behind them. `None` where the
/// data ends early or an entry is out of range.
pub open spec fn stream_records(
    data: Seq<u8>,
    pos: int,
    w: (int, int, int),
    number: int,
    remaining: int,
    acc: Seq<XrefRecord>,
) -> Option<(Seq<XrefRecord>, int)>
    decreases remaining,
{
    if remaining <= 0 {
        Some((acc, pos))
    } else if pos + w.0 + w.1 + w.2 > data.len() || !(0 <= number <= u32::MAX) {
        None
    } else {
        match entry_at(data, pos, w) {
            Some(entry) => stream_records(
                data,
                pos + w.0 + w.1 + w.2,
                w,
                number + 1,
                remaining - 1,
                acc.push(XrefRecord { number: number as u32, entry }),
            ),
            None => None,
        }
    }
}

/// The records of the subsections that `/Index` lists from its index `i` on:
/// pairs of a first object number and a count.
pub open spec fn index_records(
    data: Seq<u8>,
    index: Seq<Value>,
    i: int,
    w: (int, int, int),
    pos: int,
    acc: Seq<XrefRecord>,
) -> Option<Seq<XrefRecord>>
    decreases index.len() - i,
{
    if i < 0 || i >= index.len() {
        Some(acc)
    } else if i + 1 >= index.len() {
        None
    } else {
        match (index[i], index[i + 1]) {
            (Value::Integer(first), Value::Integer(count)) => if first < 0 || count < 0 {
                None
            } else {
                match stream_records(data, pos, w, first, count, acc) {
                    Some((acc2, q2)) => index_records(data, index, i + 2, w, q2, acc2),
                    None => None,
                }
            },
            _ => None,
        }
    }
}

/// The records of a cross-reference stream with dictionary `d` and decoded
/// data `data`. Without `/Index` the entries are those of the objects from 0
/// up to `/Size`.
pub open spec fn xref_stream_records(d: Seq<(Seq<u8>, Value)>, data: Seq<u8>) -> Option<
    Seq<XrefRecord>,
> {
    match widths_of(d) {
        None => None,
        Some(w) => match dict_get(d, ascii("Index")) {
            Some(Value::Array(index)) => index_records(data, index, 0, w, 0, Seq::empty()),
            _ => match dict_get(d, ascii("Size")) {
                Some(Value::Integer(size)) => if size < 0 {
                    None
                } else {
                    match stream_records(data, 0, w, 0, size, Seq::empty()) {
                        Some((acc, _)) => Some(acc),
                        None => None,
                    }
                },
                _ => None,
            },
        },
    }
}

proof fn lemma_be_bound(data: Seq<u8>, pos: int, w: int)
    requires
        0 <= w,
    ensures
        0 <= be_value(data, pos, w) < pow256(w),
    decreases w,
{
    if w > 0 {
        lemma_be_bound(data, pos, w - 1);
    }
}

proof fn lemma_pow256_small(w: int)
    requires
        0 <= w <= 8,
    ensures
        pow256(w) <= 0x1_0000_0000_0000_0000,
{
    reveal_with_fuel(pow256, 10);
}

fn read_be(data: &[u8], pos: usize, w: usize) -> (r: u64)
    requires
        w <= 8,
        pos + w <= data.len(),
    ensures
        r as int == be_value(data@, pos as int, w as int),
{
    let mut acc: u64 = 0;
    let mut i: usize = 0;
    while i < w
        invariant
            i <= w <= 8,
            pos + w <= data.len(),
            acc as int == be_value(data@, pos as int, i as int),
        decreases w - i,
    {
        proof {
            lemma_be_bound(data@, pos as int, i + 1);
            lemma_pow256_small(i + 1);
        }
        acc = acc * 256 + data[pos + i] as u64;
        i += 1;
    }
    acc
}

fn read_widths(dict: &Vec<(Vec<u8>, PdfObject)>) -> (r: Option<(usize, usize, usize)>)
    ensures
        match r {
            Some((w0, w1, w2)) => widths_of(dict_view(*dict)) == Some(
                (w0 as int, w1 as int, w2 as int),
            ) && w0 <= 8 && w1 <= 8 && w2 <= 8 && w0 + w1 + w2 >= 1,
            None => widths_of(dict_view(*dict)) is None,
        },
{
    match dict_lookup(dict, "W".as_bytes()) {
        Some(PdfObject::Array(a)) => {
            proof {
                lemma_items_view(*a);
            }
            if a.len() != 3 {
                return None;
            }
            match (&a[0], &a[1], &a[2]) {
                (PdfObject::Integer(w0), PdfObject::Integer(w1), PdfObject::Integer(w2)) => {
                    if 0 <= *w0 && *w0 <= 8 && 0 <= *w1 && *w1 <= 8 && 0 <= *w2 && *w2 <= 8 && *w0
                        + *w1 + *w2 >= 1 {
                        Some((*w0 as usize, *w1 as usize, *w2 as usize))
                    } else {
                        None
                    }
                },
                _ => None,
            }
        },
        _ => None,
    }
}

fn make_entry(t: u64, f2: u64, f3: u64) -> (r: Option<XrefEntry>)
    ensures
        r == stream_entry(t as int, f2 as int, f3 as int),
{
    if t == 1 {
        if f2 <= usize::MAX as u64 && f3 <= u16::MAX as u64 {
            Some(XrefEntry::InUse { offset: f2 as usize, generation: f3 as u16 })
        } else {
            None
        }
    } else if t == 2 {
        if f2 <= u32::MAX as u64 && f3 <= u32::MAX as u64 {
            Some(XrefEntry::Compressed { stream: f2 as u32, index: f3 as u32 })
        } else {
            None
        }
    } else {
        Some(XrefEntry::Free)
    }
}

fn read_records(
    data: &[u8],
    pos: usize,
    w: (usize, usize, usize),
    first: i64,
    count: i64,
    acc: &mut Vec<XrefRecord>,
) -> (r: Option<usize>)
    requires
        pos <= data.len(),
        w.0 <= 8 && w.1 <= 8 && w.2 <= 8 && w.0 + w.1 + w.2 >= 1,
        0 <= first,
        0 <= count,
    ensures
        match r {
            Some(q) => stream_records(
                data@,
                pos as int,
                (w.0 as int, w.1 as int, w.2 as int),
                first as int,
                count as int,
                old(acc)@,
            ) == Some((final(acc)@, q as int)) && pos <= q <= data.len(),
            None => stream_records(
                data@,
                pos as int,
                (w.0 as int, w.1 as int, w.2 as int),
                first as int,
                count as int,
                old(acc)@,
            ) is None,
        },
{
    let width: usize = w.0 + w.1 + w.2;
    let ghost wi = (w.0 as int, w.1 as int, w.2 as int);
    let mut i: usize = pos;
    let mut number: i64 = first;
    let mut remaining: i64 = count;
    while remaining > 0
        invariant
            pos <= i <= data.len(),
            w.0 <= 8 && w.1 <= 8 && w.2 <= 8,
            width == w.0 + w.1 + w.2,
            wi == (w.0 as int, w.1 as int, w.2 as int),
            0 <= first <= number,
            0 <= remaining <= count,
            number - first == count - remaining,
            stream_records(data@, pos as int, wi, first as int, count as int, old(acc)@)
                == stream_records(data@, i as int, wi, number as int, remaining as int, acc@),
        decreases remaining,
    {
        if data.len() - i < width || number > u32::MAX as i64 {
            return None;
        }
        let t: u64 = if w.0 == 0 {
            1
        } else {
            read_be(data, i, w.0)
        };
        let f2 = read_be(data, i + w.0, w.1);
        let f3 = read_be(data, i + w.0 + w.1, w.2);
        match make_entry(t, f2, f3) {
            Some(entry) => {
                acc.push(XrefRecord { number: number as u32, entry });
            },
            None => {
                return None;
            },
        }
        i += width;
        number += 1;
        remaining -= 1;
    }
    Some(i)
}

/// Reads the records of a cross-reference stream from its dictionary and its
/// decoded data.
pub fn read_xref_stream(dict: &Vec<(Vec<u8>, PdfObject)>, data: &[u8]) -> (r: Option<
    Vec<XrefRecord>,
>)
    ensures
        match r {
            Some(records) => xref_stream_records(dict_view(*dict), data@) == Some(records@),
            None => xref_stream_records(dict_view(*dict), data@) is None,
        },
{
    let w = match read_widths(dict) {
        Some(w) => w,
        None => {
            return None;
        },
    };
    let ghost wi = (w.0 as int, w.1 as int, w.2 as int);
    let mut acc: Vec<XrefRecord> = Vec::new();
    match dict_lookup(dict, "Index".as_bytes()) {
        Some(PdfObject::Array(index)) => {
            proof {
                lemma_items_view(*index);
            }
            let mut i: usize = 0;
            let mut pos: usize = 0;
            while i < index.len()
                invariant
                    pos <= data.len(),
                    w.0 <= 8 && w.1 <= 8 && w.2 <= 8 && w.0 + w.1 + w.2 >= 1,
                    wi == (w.0 as int, w.1 as int, w.2 as int),
                    xref_stream_records(dict_view(*dict), data@) == index_records(
                        data@,
                        items_view(*index),
                        0,
                        wi,
                        0,
                        Seq::empty(),
                    ),
                    index_records(data@, items_view(*index), 0, wi, 0, Seq::empty())
                        == index_records(data@, items_view(*index), i as int, wi, pos as int, acc@),
                    items_view(*index).len() == index.len(),
                    forall|k: int|
                        0 <= k < index.len() ==> #[trigger] items_view(*index)[k] == index[k]@,
                decreases index.len() - i,
            {
                if index.len() - i < 2 {
                    return None;
                }
                match (&index[i], &index[i + 1]) {
                    (PdfObject::Integer(first), PdfObject::Integer(count)) => {
                        if *first < 0 || *count < 0 {
                            return None;
                        }
                        match read_records(data, pos, w, *first, *count, &mut acc) {
                            Some(q2) => {
                                pos = q2;
                            },
                            None => {
                                return None;
                            },
                        }
                    },
                    _ => {
                        return None;
                    },
                }
                i += 2;
            }
            Some(acc)
        },
        _ => match dict_lookup(dict, "Size".as_bytes()) {
            Some(PdfObject::Integer(size)) => {
                if *size < 0 {
                    return None;
                }
                match read_records(data, 0, w, 0, *size, &mut acc) {
                    Some(_) => Some(acc),
                    None => None,
                }
            },
            _ => None,
        },
    }
}

} // verus!
