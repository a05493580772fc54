//! The cross-reference data: where each object of the file is to be found.
use vstd::prelude::*;
use crate::bytes::{ascii, bytes_eq};
use crate::lexer::{lemma_token_past_end, next_token, token_at, Token, TokenView};

verus! {

/// Where an object is.
#[derive(Clone, Copy, Debug, PartialEq, Eq, Structural)]
pub enum XrefEntry {
    /// The object number is not in use.
    Free,
    /// The object starts at a byte offset of the file.
    InUse { offset: usize, generation: u16 },
    /// The object is stored in an object stream, at an index.
    Compressed { stream: u32, index: u32 },
}

/// One entry of the object table.
#[derive(Clone, Copy, Debug, PartialEq, Eq, Structural)]
pub struct XrefRecord {
    pub number: u32,
    pub entry: XrefEntry,
}

/// The least index at or after `from` of a record for the object number.
pub open spec fn table_find(records: Seq<XrefRecord>, number: u32, from: int) -> Option<int>
    decreases records.len() - from,
{
    if from < 0 || from >= records.len() {
        None
    } else if records[from].number == number {
        Some(from)
    } else {
        table_find(records, number, from + 1)
    }
}

/// The entry of an object number: that of its first record. Records stand in
/// the order in which the revisions were read, the latest revision first, so
/// the entry of the latest revision that mentions the object is the one found.
pub open spec fn table_lookup(records: Seq<XrefRecord>, number: u32) -> Option<XrefEntry> {
    match table_find(records, number, 0) {
        Some(i) => Some(records[i].entry),
        None => None,
    }
}

/// `table_find` gives the first record of the number, and `None` only where
/// there is none.
pub proof fn lemma_table_find(records: Seq<XrefRecord>, number: u32, from: int)
    requires
        0 <= from,
    ensures
        match table_find(records, number, from) {
            Some(i) => from <= i < records.len() && records[i].number == number && forall|j: int|
                from <= j < i ==> records[j].number != number,
            None => forall|j: int| from <= j < records.len() ==> records[j].number != number,
        },
    decreases records.len() - from,
{
    if from < records.len() && records[from].number != number {
        lemma_table_find(records, number, from + 1);
    }
}

/// A later revision overrides an earlier one: in a table made of the records
/// of a later revision followed by those of earlier ones, an object that the
/// later revision mentions has the entry given there, whatever the earlier
/// ones say; any other object has the entry that the earlier ones give it.
pub proof fn lemma_later_revision_wins(later: Seq<XrefRecord>, earlier: Seq<XrefRecord>, number: u32)
    ensures
        table_lookup(later + earlier, number) == match table_lookup(later, number) {
            Some(e) => Some(e),
            None => table_lookup(earlier, number),
        },
{
    let all = later + earlier;
    lemma_table_find(all, number, 0);
    lemma_table_find(later, number, 0);
    lemma_table_find(earlier, number, 0);
    assert(forall|j: int| 0 <= j < later.len() ==> all[j] == later[j]);
    assert(forall|j: int| 0 <= j < earlier.len() ==> all[later.len() + j] == earlier[j]);
    match table_find(later, number, 0) {
        Some(i) => {
            assert(all[i].number == number);
            let k = table_find(all, number, 0)->0;
            if k < i {
                assert(later[k].number != number);
            }
        },
        None => {
            match table_find(earlier, number, 0) {
                Some(i) => {
                    assert(all[later.len() + i].number == number);
                    let k = table_find(all, number, 0)->0;
                    if k < later.len() {
                        assert(later[k].number != number);
                    } else if k < later.len() + i {
                        assert(earlier[k - later.len()].number != number);
                    }
                },
                None => {
                    if table_find(all, number, 0) is Some {
                        let k = table_find(all, number, 0)->0;
                        if k < later.len() {
                            assert(later[k].number != number);
                        } else {
                            assert(earlier[k - later.len()].number != number);
                        }
                    }
                },
            }
        },
    }
}

/// The entry of an object number in the table.
pub fn lookup(records: &Vec<XrefRecord>, number: u32) -> (r: Option<XrefEntry>)
    ensures
        r == table_lookup(records@, number),
{
    let mut i: usize = 0;
    while i < records.len()
        invariant
            i <= records.len(),
            table_find(records@, number, 0) == table_find(records@, number, i as int),
        decreases records.len() - i,
    {
        if records[i].number == number {
            return Some(records[i].entry);
        }
        i += 1;
    }
    None
}

/// The entry that a line of a cross-reference table writes: an offset or a
/// next free number, a generation, and `n` or `f`.
pub open spec fn line_entry(a: int, g: int, k: Seq<u8>) -> Option<XrefEntry> {
    if k == ascii("n") && 0 <= a <= usize::MAX && 0 <= g <= u16::MAX {
        Some(XrefEntry::InUse { offset: a as usize, generation: g as u16 })
    } else if k == ascii("f") {
        Some(XrefEntry::Free)
    } else {
        None
    }
}

/// The entry that the line of a cross-reference table at `pos` writes, and
/// the position behind the line.
pub open spec fn table_line(s: Seq<u8>, pos: int) -> Option<(XrefEntry, int)> {
    match token_at(s, pos) {
        Some((TokenView::Integer(a), q1)) => match token_at(s, q1) {
            Some((TokenView::Integer(g), q2)) => match token_at(s, q2) {
                Some((TokenView::Keyword(k), q3)) => match line_entry(a, g, k) {
                    Some(entry) => Some((entry, q3)),
                    None => None,
                },
                _ => None,
            },
            _ => None,
        },
        _ => None,
    }
}

/// The records of `remaining` lines of a cross-reference table from `pos`,
/// for the object numbers from `number` on, after `acc`; with the position
/// behind the last line. `None` where a line does not parse.
pub open spec fn table_lines(
    s: Seq<u8>,
    pos: int,
    number: int,
    remaining: int,
    acc: Seq<XrefRecord>,
) -> Option<(Seq<XrefRecord>, int)>
    decreases remaining,
{
    if remaining <= 0 {
        Some((acc, pos))
    } else {
        match table_line(s, pos) {
            Some((entry, q3)) => if 0 <= number <= u32::MAX {
                table_lines(
                    s,
                    q3,
                    number + 1,
                    remaining - 1,
                    acc.push(XrefRecord { number: number as u32, entry }),
                )
            } else {
                None
            },
            None => None,
        }
    }
}

/// The records of the subsections of a cross-reference table from `pos`,
/// after `acc`, and the position behind the keyword `trailer` that ends them.
/// A subsection is a first object number, a count and that many lines.
pub open spec fn table_subsections(s: Seq<u8>, pos: int, acc: Seq<XrefRecord>) -> Option<
    (Seq<XrefRecord>, int),
>
    decreases s.len() - pos,
{
    match token_at(s, pos) {
        Some((TokenView::Keyword(k), q1)) => if k == ascii("trailer") {
            Some((acc, q1))
        } else {
            None
        },
        Some((TokenView::Integer(first), q1)) => match token_at(s, q1) {
            Some((TokenView::Integer(count), q2)) => if first < 0 || count < 0 {
                None
            } else {
                match table_lines(s, q2, first, count, acc) {
                    Some((acc2, q3)) => if pos < q3 <= s.len() {
                        table_subsections(s, q3, acc2)
                    } else {
                        None
                    },
                    None => None,
                }
            },
            _ => None,
        },
        _ => None,
    }
}

fn read_line_entry(a: i64, g: i64, k: &[u8]) -> (r: Option<XrefEntry>)
    ensures
        r == line_entry(a as int, g as int, k@),
{
    if bytes_eq(k, "n".as_bytes()) && 0 <= a && a as u64 <= usize::MAX as u64 && 0 <= g && g
        <= u16::MAX as i64 {
        Some(XrefEntry::InUse { offset: a as usize, generation: g as u16 })
    } else if bytes_eq(k, "f".as_bytes()) {
        Some(XrefEntry::Free)
    } else {
        None
    }
}

fn read_line(buf: &[u8], pos: usize) -> (r: Option<(XrefEntry, usize)>)
    ensures
        match r {
            Some((entry, q)) => table_line(buf@, pos as int) == Some((entry, q as int)) && pos < q
                <= buf.len(),
            None => table_line(buf@, pos as int) is None,
        },
{
    match next_token(buf, pos) {
        Ok((Token::Integer(a), q1)) => match next_token(buf, q1) {
            Ok((Token::Integer(g), q2)) => match next_token(buf, q2) {
                Ok((Token::Keyword(k), q3)) => match read_line_entry(a, g, k.as_slice()) {
                    Some(entry) => Some((entry, q3)),
                    None => None,
                },
                _ => None,
            },
            _ => None,
        },
        _ => None,
    }
}

/// Reads `count` lines of a cross-reference table.
fn read_lines(buf: &[u8], pos: usize, first: i64, count: i64, acc: &mut Vec<XrefRecord>) -> (r:
    Option<usize>)
    requires
        0 <= first,
        0 <= count,
        pos <= buf.len(),
    ensures
        match r {
            Some(q) => table_lines(buf@, pos as int, first as int, count as int, old(acc)@) == Some(
                (final(acc)@, q as int),
            ) && pos <= q <= buf.len(),
            None => table_lines(buf@, pos as int, first as int, count as int, old(acc)@) is None,
        },
{
    let mut i: usize = pos;
    let mut number: i64 = first;
    let mut remaining: i64 = count;
    while remaining > 0
        invariant
            pos <= i <= buf.len(),
            0 <= first <= number,
            0 <= remaining <= count,
            number - first == count - remaining,
            table_lines(buf@, pos as int, first as int, count as int, old(acc)@) == table_lines(
                buf@,
                i as int,
                number as int,
                remaining as int,
                acc@,
            ),
        decreases remaining,
    {
        match read_line(buf, i) {
            Some((entry, q)) => {
                if number > u32::MAX as i64 {
                    return None;
                }
                acc.push(XrefRecord { number: number as u32, entry });
                i = q;
                number += 1;
                remaining -= 1;
            },
            None => {
                return None;
            },
        }
    }
    Some(i)
}

/// Reads the subsections of a cross-reference table, up to and including the
/// keyword `trailer`.
pub fn read_subsections(buf: &[u8], pos: usize) -> (r: Option<(Vec<XrefRecord>, usize)>)
    ensures
        match r {
            Some((records, q)) => table_subsections(buf@, pos as int, Seq::empty()) == Some(
                (records@, q as int),
            ) && q <= buf.len(),
            None => table_subsections(buf@, pos as int, Seq::empty()) is None,
        },
{
    if pos > buf.len() {
        proof {
            lemma_token_past_end(buf@, pos as int);
        }
        return None;
    }
    let mut acc: Vec<XrefRecord> = Vec::new();
    let mut i: usize = pos;
    loop
        invariant
            pos <= i <= buf.len(),
            table_subsections(buf@, pos as int, Seq::empty()) == table_subsections(
                buf@,
                i as int,
                acc@,
            ),
        decreases buf.len() - i,
    {
        match next_token(buf, i) {
            Ok((Token::Keyword(k), q1)) => {
                if bytes_eq(k.as_slice(), "trailer".as_bytes()) {
                    return Some((acc, q1));
                }
                return None;
            },
            Ok((Token::Integer(first), q1)) => match next_token(buf, q1) {
                Ok((Token::Integer(count), q2)) => {
                    if first < 0 || count < 0 {
                        return None;
                    }
                    match read_lines(buf, q2, first, count, &mut acc) {
                        Some(q3) => {
                            i = q3;
                        },
                        None => {
                            return None;
                        },
                    }
                },
                _ => {
                    return None;
                },
            },
            _ => {
                return None;
            },
        }
    }
}

} // verus!
