//! Colon-delimited record stores: finding, dropping and numbering records
//! whose first field is their key.

use vstd::prelude::*;
use crate::text::{
    has_key, has_key_spec, numeric_field, numeric_field_spec, string_views, to_chars,
};

verus! {

/// The first position that holds `true`, or -1 when none does.
pub open spec fn first_true(flags: Seq<bool>) -> int
    decreases flags.len(),
{
    if flags.len() == 0 {
        -1
    } else {
        let before = first_true(flags.drop_last());
        if before >= 0 {
            before
        } else if flags.last() {
            flags.len() - 1
        } else {
            -1
        }
    }
}

/// `first_true` finds a position that holds `true` with none before it, and
/// answers -1 only when every position holds `false`.
pub proof fn lemma_first_true(flags: Seq<bool>)
    ensures
        -1 <= first_true(flags) < flags.len(),
        first_true(flags) >= 0 ==> flags[first_true(flags)] && forall|j: int|
            0 <= j < first_true(flags) ==> !#[trigger] flags[j],
        first_true(flags) == -1 ==> forall|j: int| 0 <= j < flags.len() ==> !#[trigger] flags[j],
    decreases flags.len(),
{
    if flags.len() > 0 {
        lemma_first_true(flags.drop_last());
        let before = first_true(flags.drop_last());
        if before >= 0 {
            assert(flags.drop_last()[before] == flags[before]);
            assert forall|j: int| 0 <= j < before implies !#[trigger] flags[j] by {
                assert(flags.drop_last()[j] == flags[j]);
            }
        } else {
            assert forall|j: int| 0 <= j < flags.len() - 1 implies !#[trigger] flags[j] by {
                assert(flags.drop_last()[j] == flags[j]);
            }
        }
    }
}

/// For each line, whether it is a record of `key`.
pub open spec fn key_flags(lines: Seq<Seq<char>>, key: Seq<char>) -> Seq<bool> {
    Seq::new(lines.len(), |i: int| has_key_spec(lines[i], key))
}

/// The position of the first record of `key`, or -1.
pub open spec fn position_spec(lines: Seq<Seq<char>>, key: Seq<char>) -> int {
    first_true(key_flags(lines, key))
}

/// Finds the first record of `key`.
pub fn position(lines: &Vec<String>, key: &Vec<char>) -> (r: Option<usize>)
    ensures
        r is Some ==> r->Some_0 < lines.len() && position_spec(string_views(lines@), key@)
            == r->Some_0 as int,
        r is None ==> position_spec(string_views(lines@), key@) == -1,
{
    let ghost flags = key_flags(string_views(lines@), key@);
    let mut i: usize = 0;
    while i < lines.len()
        invariant
            i <= lines.len(),
            flags == key_flags(string_views(lines@), key@),
            forall|j: int| 0 <= j < i ==> !#[trigger] flags[j],
        decreases lines.len() - i,
    {
        let line = to_chars(lines[i].as_str());
        if has_key(&line, key) {
            proof {
                lemma_first_true(flags);
                assert(flags[i as int]);
            }
            return Some(i);
        }
        proof {
            assert(!flags[i as int]);
        }
        i += 1;
    }
    proof {
        lemma_first_true(flags);
    }
    None
}

/// The lines that are not records of `key`, in their order.
pub open spec fn without_key_spec(lines: Seq<Seq<char>>, key: Seq<char>) -> Seq<Seq<char>>
    decreases lines.len(),
{
    if lines.len() == 0 {
        Seq::<Seq<char>>::empty()
    } else {
        let before = without_key_spec(lines.drop_last(), key);
        if has_key_spec(lines.last(), key) {
            before
        } else {
            before.push(lines.last())
        }
    }
}

/// Drops every record of `key`; the other lines keep their order.
pub fn remove_keyed(lines: &mut Vec<String>, key: &Vec<char>)
    ensures
        string_views(final(lines)@) == without_key_spec(string_views(old(lines)@), key@),
{
    let mut kept: Vec<String> = Vec::new();
    let mut i: usize = 0;
    proof {
        assert(string_views(lines@).take(0) =~= Seq::<Seq<char>>::empty());
        assert(string_views(kept@) =~= Seq::<Seq<char>>::empty());
    }
    while i < lines.len()
        invariant
            i <= lines.len(),
            string_views(kept@) == without_key_spec(string_views(lines@).take(i as int), key@),
        decreases lines.len() - i,
    {
        proof {
            let t = string_views(lines@).take(i as int + 1);
            assert(t.drop_last() =~= string_views(lines@).take(i as int));
            assert(t.last() == lines@[i as int]@);
        }
        let line = to_chars(lines[i].as_str());
        if !has_key(&line, key) {
            let ghost before = string_views(kept@);
            kept.push(lines[i].clone());
            proof {
                assert(string_views(kept@) =~= before.push(lines@[i as int]@));
            }
        }
        i += 1;
    }
    proof {
        assert(string_views(lines@).take(lines.len() as int) =~= string_views(lines@));
    }
    *lines = kept;
}

/// The highest number that field `index` of any record holds, and at least 999.
pub open spec fn highest_id_spec(lines: Seq<Seq<char>>, index: int) -> nat
    decreases lines.len(),
{
    if lines.len() == 0 {
        999
    } else {
        let before = highest_id_spec(lines.drop_last(), index);
        match numeric_field_spec(lines.last(), index) {
            Some(v) => if v as nat > before {
                v as nat
            } else {
                before
            },
            None => before,
        }
    }
}

/// The highest id is at least 999 and at least every id on record, and it is
/// 999 or one of those ids.
pub proof fn lemma_highest_id(lines: Seq<Seq<char>>, index: int)
    ensures
        highest_id_spec(lines, index) >= 999,
        highest_id_spec(lines, index) <= u32::MAX,
        forall|i: int|
            0 <= i < lines.len() && (#[trigger] numeric_field_spec(lines[i], index)) is Some
                ==> numeric_field_spec(lines[i], index)->Some_0 <= highest_id_spec(lines, index),
        highest_id_spec(lines, index) == 999 || exists|i: int|
            0 <= i < lines.len() && #[trigger] numeric_field_spec(lines[i], index) == Some(
                highest_id_spec(lines, index) as u32,
            ),
    decreases lines.len(),
{
    if lines.len() > 0 {
        let rest = lines.drop_last();
        lemma_highest_id(rest, index);
        assert forall|i: int|
            0 <= i < lines.len() && (#[trigger] numeric_field_spec(lines[i], index)) is Some implies numeric_field_spec(
            lines[i],
            index,
        )->Some_0 <= highest_id_spec(lines, index) by {
            if i < rest.len() {
                assert(rest[i] == lines[i]);
            }
        }
        let h = highest_id_spec(lines, index);
        if h != 999 {
            if h == highest_id_spec(rest, index) {
                let i = choose|i: int|
                    0 <= i < rest.len() && #[trigger] numeric_field_spec(rest[i], index) == Some(
                        h as u32,
                    );
                assert(rest[i] == lines[i]);
                assert(numeric_field_spec(lines[i], index) == Some(h as u32));
            } else {
                assert(numeric_field_spec(lines[lines.len() - 1], index) == Some(h as u32));
            }
        }
    }
}

/// The next free id: one above the highest, unless that does not fit.
pub open spec fn next_id_spec(lines: Seq<Seq<char>>, index: int) -> Option<u32> {
    if highest_id_spec(lines, index) < u32::MAX {
        Some((highest_id_spec(lines, index) + 1) as u32)
    } else {
        None
    }
}

/// Allocates the next id from field `index` of the records.
pub fn next_id(lines: &Vec<String>, index: usize) -> (r: Option<u32>)
    ensures
        r == next_id_spec(string_views(lines@), index as int),
{
    let mut highest: u32 = 999;
    let mut i: usize = 0;
    proof {
        assert(string_views(lines@).take(0) =~= Seq::<Seq<char>>::empty());
    }
    while i < lines.len()
        invariant
            i <= lines.len(),
            highest == highest_id_spec(string_views(lines@).take(i as int), index as int),
        decreases lines.len() - i,
    {
        proof {
            let t = string_views(lines@).take(i as int + 1);
            assert(t.drop_last() =~= string_views(lines@).take(i as int));
            assert(t.last() == lines@[i as int]@);
        }
        let line = to_chars(lines[i].as_str());
        match numeric_field(&line, index) {
            Some(v) => {
                if v > highest {
                    highest = v;
                }
            },
            None => {},
        }
        i += 1;
    }
    proof {
        assert(string_views(lines@).take(lines.len() as int) =~= string_views(lines@));
    }
    if highest < u32::MAX {
        Some(highest + 1)
    } else {
        None
    }
}

} // verus!
